//! Key rotation: which call of the encryption tool comes next.
//!
//! Rotating a file takes two calls of the tool, one that decrypts the file
//! in place and one that encrypts it again under the new key. The
//! coordinator decides which call is due and takes note of how each call
//! ended; making the calls is left to its user.

use vstd::prelude::*;
use vstd::seq_lib::lemma_seq_contains_after_push;
use crate::paths::{path_views, PathSet};

verus! {

/// The two steps of rotating one file.
#[derive(Debug, Clone, Copy, PartialEq, Eq, Structural)]
pub enum RotationStep {
    Decrypt,
    Encrypt,
}

/// One call of the encryption tool: a step, and the file it works on.
pub struct ToolCall {
    pub step: RotationStep,
    pub path: Seq<char>,
}

/// A call of the tool together with how it ended: well, or with the cause
/// of its failure.
pub struct Exchange {
    pub call: ToolCall,
    /// Why the call failed; `None` when it ended well.
    pub failure: Option<Seq<char>>,
}

/// What a [`RotationError`] stands for in contracts.
pub struct RotationErrorView {
    pub path: Seq<char>,
    pub step: RotationStep,
    pub cause: Seq<char>,
}

/// The call that decrypts the file at `path`.
pub open spec fn decrypt(path: Seq<char>) -> ToolCall {
    ToolCall { step: RotationStep::Decrypt, path }
}

/// The call that encrypts the file at `path`.
pub open spec fn encrypt(path: Seq<char>) -> ToolCall {
    ToolCall { step: RotationStep::Encrypt, path }
}

/// The calls of a history, without their outcomes.
pub open spec fn calls(history: Seq<Exchange>) -> Seq<ToolCall> {
    history.map_values(|exchange: Exchange| exchange.call)
}

/// The files whose rotation was begun: those with a call to decrypt them.
pub open spec fn tried(history: Seq<Exchange>) -> Set<Seq<char>> {
    Set::new(|path: Seq<char>| calls(history).contains(decrypt(path)))
}

/// The files that were rotated: those whose encryption under the new key
/// ended well.
pub open spec fn rotated(history: Seq<Exchange>) -> Set<Seq<char>> {
    Set::new(
        |path: Seq<char>|
            history.contains(Exchange { call: encrypt(path), failure: None }),
    )
}

/// The error that reports a failed exchange.
pub open spec fn error_of(exchange: Exchange) -> RotationErrorView {
    RotationErrorView {
        path: exchange.call.path,
        step: exchange.call.step,
        cause: exchange.failure->Some_0,
    }
}

/// The errors of a history: one for each call that failed, in the order of
/// the calls.
pub open spec fn failures(history: Seq<Exchange>) -> Seq<RotationErrorView> {
    history.filter(|exchange: Exchange| exchange.failure is Some).map_values(
        |exchange: Exchange| error_of(exchange),
    )
}

/// The first of `requests` that is not in `done`.
pub open spec fn first_outside(requests: Seq<Seq<char>>, done: Set<Seq<char>>) -> Option<
    Seq<char>,
>
    decreases requests.len(),
{
    if requests.len() == 0 {
        None
    } else if !done.contains(requests[0]) {
        Some(requests[0])
    } else {
        first_outside(requests.drop_first(), done)
    }
}

/// The call that is due after `history`, if any is.
///
/// A file that was decrypted is encrypted next. Otherwise the first
/// requested file whose rotation was not begun yet is decrypted: a file
/// that was rotated, or whose rotation failed, is not taken up again.
pub open spec fn due(requests: Seq<Seq<char>>, history: Seq<Exchange>) -> Option<ToolCall> {
    if history.len() > 0 && history.last().call.step == RotationStep::Decrypt
        && history.last().failure is None {
        Some(encrypt(history.last().call.path))
    } else {
        match first_outside(requests, tried(history)) {
            Some(path) => Some(decrypt(path)),
            None => None,
        }
    }
}

/// Every call of the history was the one that was due when it was made.
pub open spec fn orderly(requests: Seq<Seq<char>>, history: Seq<Exchange>) -> bool {
    forall|i: int|
        0 <= i < history.len() ==> due(requests, #[trigger] history.take(i)) == Some(
            history[i].call,
        )
}

/// What `first_outside` finds is requested and not done, and everything
/// requested before it is done; it finds nothing only if all is done.
pub proof fn lemma_first_outside(requests: Seq<Seq<char>>, done: Set<Seq<char>>)
    ensures
        match first_outside(requests, done) {
            Some(path) => exists|i: int|
                0 <= i < requests.len() && #[trigger] requests[i] == path && !done.contains(path)
                    && forall|j: int| 0 <= j < i ==> done.contains(#[trigger] requests[j]),
            None => forall|i: int| 0 <= i < requests.len() ==> done.contains(#[trigger] requests[i]),
        },
    decreases requests.len(),
{
    if requests.len() == 0 {
    } else if !done.contains(requests[0]) {
        assert(requests[0] == requests[0]);
    } else {
        let rest = requests.drop_first();
        lemma_first_outside(rest, done);
        match first_outside(rest, done) {
            Some(path) => {
                let i = choose|i: int|
                    0 <= i < rest.len() && #[trigger] rest[i] == path && !done.contains(path)
                        && forall|j: int| 0 <= j < i ==> done.contains(#[trigger] rest[j]);
                assert(requests[i + 1] == path);
                assert forall|j: int| 0 <= j < i + 1 implies done.contains(
                    #[trigger] requests[j],
                ) by {
                    if j > 0 {
                        assert(rest[j - 1] == requests[j]);
                    }
                }
            },
            None => {
                assert forall|i: int| 0 <= i < requests.len() implies done.contains(
                    #[trigger] requests[i],
                ) by {
                    if i > 0 {
                        assert(rest[i - 1] == requests[i]);
                    }
                }
            },
        }
    }
}

/// In an orderly history no file is decrypted twice.
proof fn lemma_decrypted_once(requests: Seq<Seq<char>>, history: Seq<Exchange>, i: int, j: int)
    requires
        orderly(requests, history),
        0 <= i < j < history.len(),
        history[i].call.step == RotationStep::Decrypt,
        history[j].call.step == RotationStep::Decrypt,
    ensures
        history[i].call.path != history[j].call.path,
{
    let before = history.take(j);
    let path = history[j].call.path;
    assert(due(requests, before) == Some(history[j].call));
    lemma_first_outside(requests, tried(before));
    assert(!tried(before).contains(path));
    if history[i].call.path == path {
        assert(calls(before)[i] == decrypt(path));
        assert(calls(before).contains(decrypt(path)));
    }
}

/// In an orderly history a call that encrypts a file comes right after the
/// call that decrypted it, and that call ended well.
proof fn lemma_encrypted_after_decrypted(requests: Seq<Seq<char>>, history: Seq<Exchange>, j: int)
    requires
        orderly(requests, history),
        0 <= j < history.len(),
        history[j].call.step == RotationStep::Encrypt,
    ensures
        j > 0,
        history[j - 1] == (Exchange { call: decrypt(history[j].call.path), failure: None }),
{
    let before = history.take(j);
    assert(due(requests, before) == Some(history[j].call));
    assert(before.len() > 0);
    assert(before.last() == history[j - 1]);
}

/// In an orderly history a file that was decrypted well is encrypted by the
/// next call, if there is a next call.
proof fn lemma_decrypted_then_encrypted(requests: Seq<Seq<char>>, history: Seq<Exchange>, i: int)
    requires
        orderly(requests, history),
        0 <= i < history.len() - 1,
        history[i].call.step == RotationStep::Decrypt,
        history[i].failure is None,
    ensures
        history[i + 1].call == encrypt(history[i].call.path),
{
    let before = history.take(i + 1);
    assert(due(requests, before) == Some(history[i + 1].call));
    assert(before.last() == history[i]);
}

/// In an orderly history no call is made twice.
pub proof fn lemma_no_call_repeated(requests: Seq<Seq<char>>, history: Seq<Exchange>)
    requires
        orderly(requests, history),
    ensures
        calls(history).no_duplicates(),
{
    assert forall|i: int, j: int|
        0 <= i < calls(history).len() && 0 <= j < calls(history).len() && i
            != j implies calls(history)[i] != calls(history)[j] by {
        if calls(history)[i] == calls(history)[j] {
            let (a, b) = if i < j {
                (i, j)
            } else {
                (j, i)
            };
            match history[a].call.step {
                RotationStep::Decrypt => {
                    lemma_decrypted_once(requests, history, a, b);
                },
                RotationStep::Encrypt => {
                    lemma_encrypted_after_decrypted(requests, history, a);
                    lemma_encrypted_after_decrypted(requests, history, b);
                    lemma_decrypted_once(requests, history, a - 1, b - 1);
                },
            }
        }
    }
}

/// The rotation invariant: in an orderly history the tool is called on a
/// file at most once to decrypt it and at most once to encrypt it, however
/// often the file is requested. Only requested files are touched, and a file
/// is encrypted only after it was decrypted well. Once no call is due, every
/// requested file was decrypted exactly once, and encrypted exactly once if
/// its decryption ended well.
pub proof fn lemma_rotation_invariant(
    requests: Seq<Seq<char>>,
    history: Seq<Exchange>,
    path: Seq<char>,
)
    requires
        orderly(requests, history),
    ensures
        calls(history).to_multiset().count(decrypt(path)) <= 1,
        calls(history).to_multiset().count(encrypt(path)) <= 1,
        calls(history).contains(decrypt(path)) ==> requests.contains(path),
        calls(history).contains(encrypt(path)) ==> history.contains(
            Exchange { call: decrypt(path), failure: None },
        ),
        due(requests, history) is None && requests.contains(path) ==> calls(
            history,
        ).to_multiset().count(decrypt(path)) == 1,
        due(requests, history) is None && history.contains(
            Exchange { call: decrypt(path), failure: None },
        ) ==> calls(history).to_multiset().count(encrypt(path)) == 1,
{
    let made = calls(history);
    lemma_no_call_repeated(requests, history);
    made.lemma_multiset_has_no_duplicates();
    made.to_multiset_ensures();
    assert(made.to_multiset().count(decrypt(path)) <= 1) by {
        if made.to_multiset().count(decrypt(path)) > 0 {
            assert(made.to_multiset().contains(decrypt(path)));
        }
    }
    assert(made.to_multiset().count(encrypt(path)) <= 1) by {
        if made.to_multiset().count(encrypt(path)) > 0 {
            assert(made.to_multiset().contains(encrypt(path)));
        }
    }
    if made.contains(decrypt(path)) {
        let i = choose|i: int| 0 <= i < made.len() && made[i] == decrypt(path);
        let before = history.take(i);
        assert(due(requests, before) == Some(history[i].call));
        lemma_first_outside(requests, tried(before));
        assert(requests.contains(path));
    }
    if made.contains(encrypt(path)) {
        let j = choose|j: int| 0 <= j < made.len() && made[j] == encrypt(path);
        lemma_encrypted_after_decrypted(requests, history, j);
        assert(history[j - 1] == (Exchange { call: decrypt(path), failure: None }));
    }
    if due(requests, history) is None {
        lemma_first_outside(requests, tried(history));
        if requests.contains(path) {
            let r = choose|r: int| 0 <= r < requests.len() && requests[r] == path;
            assert(tried(history).contains(requests[r]));
            assert(made.to_multiset().contains(decrypt(path)));
        }
        if history.contains(Exchange { call: decrypt(path), failure: None }) {
            let i = choose|i: int|
                0 <= i < history.len() && history[i] == (Exchange {
                    call: decrypt(path),
                    failure: None,
                });
            if i == history.len() - 1 {
                assert(history.last() == history[i]);
            }
            lemma_decrypted_then_encrypted(requests, history, i);
            assert(made[i + 1] == encrypt(path));
            assert(made.to_multiset().contains(encrypt(path)));
        }
    }
}

/// What one more exchange adds to the files whose rotation was begun.
proof fn lemma_tried_push(history: Seq<Exchange>, exchange: Exchange)
    ensures
        tried(history.push(exchange)) == if exchange.call.step == RotationStep::Decrypt {
            tried(history).insert(exchange.call.path)
        } else {
            tried(history)
        },
{
    let longer = history.push(exchange);
    let target = if exchange.call.step == RotationStep::Decrypt {
        tried(history).insert(exchange.call.path)
    } else {
        tried(history)
    };
    assert(calls(longer) =~= calls(history).push(exchange.call));
    assert forall|path: Seq<char>| tried(longer).contains(path) == target.contains(path) by {
        lemma_seq_contains_after_push(calls(history), exchange.call, decrypt(path));
    }
    assert(tried(longer) =~= target);
}

/// What one more exchange adds to the files that were rotated.
proof fn lemma_rotated_push(history: Seq<Exchange>, exchange: Exchange)
    ensures
        rotated(history.push(exchange)) == if exchange.call.step == RotationStep::Encrypt
            && exchange.failure is None {
            rotated(history).insert(exchange.call.path)
        } else {
            rotated(history)
        },
{
    let longer = history.push(exchange);
    let target = if exchange.call.step == RotationStep::Encrypt && exchange.failure is None {
        rotated(history).insert(exchange.call.path)
    } else {
        rotated(history)
    };
    assert forall|path: Seq<char>| rotated(longer).contains(path) == target.contains(path) by {
        lemma_seq_contains_after_push(
            history,
            exchange,
            Exchange { call: encrypt(path), failure: None },
        );
    }
    assert(rotated(longer) =~= target);
}

/// What one more exchange adds to the errors.
proof fn lemma_failures_push(history: Seq<Exchange>, exchange: Exchange)
    ensures
        failures(history.push(exchange)) == if exchange.failure is Some {
            failures(history).push(error_of(exchange))
        } else {
            failures(history)
        },
{
    let failed = |exchange: Exchange| exchange.failure is Some;
    history.lemma_filter_push(exchange, failed);
    if exchange.failure is Some {
        history.filter(failed).lemma_push_map_commute(
            |exchange: Exchange| error_of(exchange),
            exchange,
        );
    }
}

/// An orderly history stays orderly when the call that is due is made.
proof fn lemma_orderly_push(requests: Seq<Seq<char>>, history: Seq<Exchange>, exchange: Exchange)
    requires
        orderly(requests, history),
        due(requests, history) == Some(exchange.call),
    ensures
        orderly(requests, history.push(exchange)),
{
    let longer = history.push(exchange);
    assert forall|i: int| 0 <= i < longer.len() implies due(requests, #[trigger] longer.take(i))
        == Some(longer[i].call) by {
        if i < history.len() {
            assert(longer.take(i) =~= history.take(i));
        } else {
            assert(longer.take(i) =~= history);
        }
    }
}

/// A failed call of the encryption tool: the file, the step that failed,
/// and what the tool gave as the cause.
#[derive(Debug, PartialEq, Eq)]
pub struct RotationError {
    pub path: String,
    pub step: RotationStep,
    pub cause: String,
}

impl View for RotationError {
    type V = RotationErrorView;

    open spec fn view(&self) -> RotationErrorView {
        RotationErrorView { path: self.path@, step: self.step, cause: self.cause@ }
    }
}

/// What is to be done next in a rotation.
#[derive(Debug, PartialEq, Eq)]
pub enum ToolCommand {
    /// Decrypt the file at `path` in place.
    Decrypt { path: String },
    /// Encrypt the file at `path` in place, under `key`.
    Encrypt { path: String, key: String },
    /// Nothing is left to do.
    Finished,
}

/// What a [`ToolCommand`] stands for in contracts.
pub enum ToolCommandView {
    Decrypt { path: Seq<char> },
    Encrypt { path: Seq<char>, key: Seq<char> },
    Finished,
}

impl View for ToolCommand {
    type V = ToolCommandView;

    open spec fn view(&self) -> ToolCommandView {
        match self {
            ToolCommand::Decrypt { path } => ToolCommandView::Decrypt { path: path@ },
            ToolCommand::Encrypt { path, key } => ToolCommandView::Encrypt {
                path: path@,
                key: key@,
            },
            ToolCommand::Finished => ToolCommandView::Finished,
        }
    }
}

/// The command that asks for the call that is due.
pub open spec fn command_for(key: Seq<char>, call: Option<ToolCall>) -> ToolCommandView {
    match call {
        Some(call) => match call.step {
            RotationStep::Decrypt => ToolCommandView::Decrypt { path: call.path },
            RotationStep::Encrypt => ToolCommandView::Encrypt { path: call.path, key },
        },
        None => ToolCommandView::Finished,
    }
}

/// How a call of the tool ended, as the history keeps it.
pub open spec fn failure_of(outcome: Result<(), String>) -> Option<Seq<char>> {
    match outcome {
        Ok(_) => None,
        Err(cause) => Some(cause@),
    }
}

/// What a list of errors stands for in contracts.
pub open spec fn error_views(errors: Seq<RotationError>) -> Seq<RotationErrorView> {
    errors.map_values(|error: RotationError| error@)
}

/// The files rotated in the current run.
pub type RotationLedger = PathSet;

/// The coordinator of one rotation run.
///
/// It is made from the new key and the list of rotation requests, one path
/// for each request; a file may be requested many times, once for each of
/// its encrypted documents. [`Rotation::command`] tells which call of the
/// tool is due, and [`Rotation::record`] takes note of how that call ended.
pub struct Rotation {
    key: String,
    requests: Vec<String>,
    /// The request that is being served; all before it are dealt with.
    cursor: usize,
    /// The step that the file of that request is at.
    step: RotationStep,
    ledger: RotationLedger,
    /// The files whose rotation failed.
    failed: PathSet,
    errors: Vec<RotationError>,
    history: Ghost<Seq<Exchange>>,
}

impl Rotation {
    /// The key that files are encrypted under.
    pub closed spec fn key(&self) -> Seq<char> {
        self.key@
    }

    /// The rotation requests, in the order in which they are served.
    pub closed spec fn requests(&self) -> Seq<Seq<char>> {
        path_views(self.requests@)
    }

    /// The calls of the tool that were made so far, and how each ended.
    pub closed spec fn history(&self) -> Seq<Exchange> {
        self.history@
    }

    /// The file of the request that is being served, while the step is `Encrypt`.
    spec fn in_hand(&self) -> Set<Seq<char>> {
        if self.step == RotationStep::Encrypt {
            set![self.requests()[self.cursor as int]]
        } else {
            Set::empty()
        }
    }

    /// The history is orderly, and ledger, errors and position agree with it.
    pub closed spec fn well_formed(&self) -> bool {
        &&& self.cursor <= self.requests@.len()
        &&& orderly(self.requests(), self.history())
        &&& self.ledger.well_formed()
        &&& self.failed.well_formed()
        &&& self.ledger@ == rotated(self.history())
        &&& error_views(self.errors@) == failures(self.history())
        &&& tried(self.history()) == self.requests().take(self.cursor as int).to_set().union(
            self.in_hand(),
        )
        &&& tried(self.history()) == self.ledger@.union(self.failed@).union(self.in_hand())
        &&& match self.step {
            RotationStep::Encrypt => {
                &&& self.cursor < self.requests@.len()
                &&& self.history().len() > 0
                &&& self.history().last() == (Exchange {
                    call: decrypt(self.requests()[self.cursor as int]),
                    failure: None,
                })
            },
            RotationStep::Decrypt => {
                &&& !(self.history().len() > 0 && self.history().last().call.step
                    == RotationStep::Decrypt && self.history().last().failure is None)
                &&& self.cursor < self.requests@.len() ==> !tried(self.history()).contains(
                    self.requests()[self.cursor as int],
                )
            },
        }
    }

    /// The history of a well-formed coordinator is orderly.
    pub proof fn lemma_orderly(&self)
        requires
            self.well_formed(),
        ensures
            orderly(self.requests(), self.history()),
    {
    }

    /// The rotation invariant, of a coordinator: whatever calls it has
    /// asked for so far, it asked to decrypt a file at most once and to
    /// encrypt it at most once. When it has finished, it has asked to
    /// decrypt every requested file exactly once, however often the file
    /// was requested, and to encrypt exactly once every file that was
    /// decrypted well.
    pub proof fn lemma_rotates_once(&self, path: Seq<char>)
        requires
            self.well_formed(),
        ensures
            calls(self.history()).to_multiset().count(decrypt(path)) <= 1,
            calls(self.history()).to_multiset().count(encrypt(path)) <= 1,
            due(self.requests(), self.history()) is None && self.requests().contains(path)
                ==> calls(self.history()).to_multiset().count(decrypt(path)) == 1,
            due(self.requests(), self.history()) is None && self.history().contains(
                Exchange { call: decrypt(path), failure: None },
            ) ==> calls(self.history()).to_multiset().count(encrypt(path)) == 1,
    {
        lemma_rotation_invariant(self.requests(), self.history(), path);
    }

    /// The call that is due, read off the position of the coordinator.
    proof fn lemma_due(&self)
        requires
            self.well_formed(),
        ensures
            due(self.requests(), self.history()) == if self.step == RotationStep::Encrypt {
                Some(encrypt(self.requests()[self.cursor as int]))
            } else if self.cursor < self.requests@.len() {
                Some(decrypt(self.requests()[self.cursor as int]))
            } else {
                None
            },
    {
        let requests = self.requests();
        let begun = tried(self.history());
        if self.step == RotationStep::Decrypt {
            lemma_first_outside(requests, begun);
            assert forall|j: int| 0 <= j < self.cursor implies begun.contains(
                #[trigger] requests[j],
            ) by {
                assert(requests.take(self.cursor as int)[j] == requests[j]);
                assert(requests.take(self.cursor as int).to_set().contains(requests[j]));
            }
        }
    }
}

impl Rotation {
    /// The key that files are encrypted under.
    pub fn get_key(&self) -> (key: &str)
        ensures
            key@ == self.key(),
    {
        self.key.as_str()
    }

    /// The ledger: the files rotated so far.
    pub fn get_ledger(&self) -> (ledger: &RotationLedger)
        requires
            self.well_formed(),
        ensures
            ledger.well_formed(),
            ledger@ == rotated(self.history()),
    {
        &self.ledger
    }

    /// The failed calls so far, in the order in which they failed.
    pub fn get_errors(&self) -> (errors: &Vec<RotationError>)
        requires
            self.well_formed(),
        ensures
            error_views(errors@) == failures(self.history()),
    {
        &self.errors
    }

    /// Whether no call is due any more.
    pub fn is_finished(&self) -> (finished: bool)
        requires
            self.well_formed(),
        ensures
            finished == (due(self.requests(), self.history()) is None),
    {
        proof {
            self.lemma_due();
        }
        match self.step {
            RotationStep::Encrypt => false,
            RotationStep::Decrypt => self.cursor >= self.requests.len(),
        }
    }

    /// The call of the tool that is due. Asking again without a call to
    /// [`Rotation::record`] in between gives the same command again.
    pub fn command(&self) -> (command: ToolCommand)
        requires
            self.well_formed(),
        ensures
            command@ == command_for(self.key(), due(self.requests(), self.history())),
    {
        proof {
            self.lemma_due();
        }
        match self.step {
            RotationStep::Encrypt => ToolCommand::Encrypt {
                path: self.requests[self.cursor].clone(),
                key: self.key.clone(),
            },
            RotationStep::Decrypt => {
                if self.cursor < self.requests.len() {
                    ToolCommand::Decrypt { path: self.requests[self.cursor].clone() }
                } else {
                    ToolCommand::Finished
                }
            },
        }
    }

    /// Takes note of how the call that was due ended, and moves on.
    ///
    /// After a file was decrypted, its encryption is due. After it was
    /// encrypted it enters the ledger. A failure of either call ends the
    /// rotation of the file and is kept as an error; a file that was
    /// decrypted and could not be encrypted again stays decrypted. In both
    /// cases the next requested file that was not begun yet is taken up.
    /// When no call was due, nothing changes.
    pub fn record(&mut self, outcome: Result<(), String>)
        requires
            old(self).well_formed(),
        ensures
            final(self).well_formed(),
            final(self).key() == old(self).key(),
            final(self).requests() == old(self).requests(),
            final(self).history() == match due(old(self).requests(), old(self).history()) {
                Some(call) => old(self).history().push(
                    Exchange { call, failure: failure_of(outcome) },
                ),
                None => old(self).history(),
            },
    {
        proof {
            self.lemma_due();
        }
        if self.step == RotationStep::Decrypt && self.cursor >= self.requests.len() {
            return;
        }
        let ghost before = *self;
        let ghost requests = self.requests();
        let ghost path = requests[self.cursor as int];
        let ghost call = ToolCall { step: self.step, path };
        let ghost exchange = Exchange { call, failure: failure_of(outcome) };
        proof {
            lemma_orderly_push(requests, before.history(), exchange);
            lemma_tried_push(before.history(), exchange);
            lemma_rotated_push(before.history(), exchange);
            lemma_failures_push(before.history(), exchange);
            assert(requests.take(self.cursor as int + 1) =~= requests.take(
                self.cursor as int,
            ).push(path));
            requests.take(self.cursor as int).lemma_push_to_set_commute(path);
        }
        self.history = Ghost(self.history@.push(exchange));
        match outcome {
            Ok(_) => {
                match self.step {
                    RotationStep::Decrypt => {
                        self.step = RotationStep::Encrypt;
                        proof {
                            assert(self.history().last() == exchange);
                            assert(tried(self.history()) =~= self.requests().take(
                                self.cursor as int,
                            ).to_set().union(self.in_hand()));
                            assert(tried(self.history()) =~= self.ledger@.union(
                                self.failed@,
                            ).union(self.in_hand()));
                        }
                    },
                    RotationStep::Encrypt => {
                        self.ledger.insert(self.requests[self.cursor].as_str());
                        self.step = RotationStep::Decrypt;
                        proof {
                            assert(before.in_hand() =~= set![path]);
                            assert(tried(self.history()) =~= requests.take(
                                self.cursor as int + 1,
                            ).to_set());
                            assert(tried(self.history()) =~= self.ledger@.union(self.failed@));
                        }
                        self.settle();
                    },
                }
            },
            Err(cause) => {
                let error = RotationError {
                    path: self.requests[self.cursor].clone(),
                    step: self.step,
                    cause,
                };
                proof {
                    assert(error@ == error_of(exchange));
                    assert(error_views(self.errors@.push(error)) =~= error_views(
                        self.errors@,
                    ).push(error@));
                }
                self.errors.push(error);
                self.failed.insert(self.requests[self.cursor].as_str());
                self.step = RotationStep::Decrypt;
                proof {
                    if before.step == RotationStep::Encrypt {
                        assert(before.in_hand() =~= set![path]);
                    } else {
                        assert(before.in_hand() =~= Set::<Seq<char>>::empty());
                    }
                    assert(tried(self.history()) =~= requests.take(
                        self.cursor as int + 1,
                    ).to_set());
                    assert(tried(self.history()) =~= self.ledger@.union(self.failed@));
                }
                self.settle();
            },
        }
    }

    /// Moves on from the request that was just dealt with to the first
    /// request whose file was not begun yet.
    fn settle(&mut self)
        requires
            old(self).cursor < old(self).requests@.len(),
            old(self).step == RotationStep::Decrypt,
            old(self).history().len() > 0,
            orderly(old(self).requests(), old(self).history()),
            !(old(self).history().last().call.step == RotationStep::Decrypt && old(
                self,
            ).history().last().failure is None),
            old(self).ledger.well_formed(),
            old(self).failed.well_formed(),
            old(self).ledger@ == rotated(old(self).history()),
            error_views(old(self).errors@) == failures(old(self).history()),
            tried(old(self).history()) == old(self).requests().take(
                old(self).cursor as int + 1,
            ).to_set(),
            tried(old(self).history()) == old(self).ledger@.union(old(self).failed@),
        ensures
            final(self).well_formed(),
            final(self).key() == old(self).key(),
            final(self).requests() == old(self).requests(),
            final(self).history() == old(self).history(),
    {
        let ghost requests = self.requests();
        let ghost begun = tried(self.history());
        let total = self.requests.len();
        let mut next: usize = self.cursor + 1;
        let mut searching = true;
        while searching && next < total
            invariant
                next <= self.requests@.len(),
                total == self.requests@.len(),
                requests == self.requests(),
                begun == self.ledger@.union(self.failed@),
                begun == requests.take(next as int).to_set(),
                !searching ==> next < self.requests@.len() && !begun.contains(
                    requests[next as int],
                ),
                self.cursor == old(self).cursor,
                self.key == old(self).key,
                self.requests == old(self).requests,
                self.step == old(self).step,
                self.history == old(self).history,
                self.ledger == old(self).ledger,
                self.failed == old(self).failed,
                self.errors == old(self).errors,
            decreases self.requests@.len() - next + if searching { 1int } else { 0int },
        {
            let path = self.requests[next].as_str();
            if self.ledger.contains(path) || self.failed.contains(path) {
                proof {
                    assert(requests.take(next as int + 1) =~= requests.take(next as int).push(
                        requests[next as int],
                    ));
                    requests.take(next as int).lemma_push_to_set_commute(requests[next as int]);
                    assert(begun.insert(requests[next as int]) =~= begun);
                }
                next += 1;
            } else {
                searching = false;
            }
        }
        self.cursor = next;
        proof {
            assert(self.in_hand() =~= Set::<Seq<char>>::empty());
            assert(begun.union(self.in_hand()) =~= begun);
        }
    }
}

/// Prepares the rotation of the files at `paths` to the key `key`.
///
/// Each element of `paths` is one request to rotate that file. No call of
/// the tool has been made yet: the first that is due decrypts the first
/// requested file.
pub fn rotate_kms_keys(key: &str, paths: &Vec<String>) -> (rotation: Rotation)
    ensures
        rotation.well_formed(),
        rotation.key() == key@,
        rotation.requests() == path_views(paths@),
        rotation.history() == Seq::<Exchange>::empty(),
{
    let mut requests: Vec<String> = Vec::new();
    let mut i: usize = 0;
    while i < paths.len()
        invariant
            i <= paths.len(),
            requests@.len() == i,
            forall|j: int| 0 <= j < i ==> requests@[j]@ == paths@[j]@,
        decreases paths.len() - i,
    {
        requests.push(paths[i].clone());
        i += 1;
    }
    let rotation = Rotation {
        key: key.to_owned(),
        requests,
        cursor: 0,
        step: RotationStep::Decrypt,
        ledger: PathSet::new(),
        failed: PathSet::new(),
        errors: Vec::new(),
        history: Ghost(Seq::empty()),
    };
    proof {
        assert(rotation.requests() =~= path_views(paths@));
        assert(error_views(rotation.errors@) =~= failures(rotation.history()));
        assert(rotated(rotation.history()) =~= Set::<Seq<char>>::empty());
        assert(tried(rotation.history()) =~= Set::<Seq<char>>::empty());
        assert(rotation.requests().take(0).to_set() =~= Set::<Seq<char>>::empty());
        assert(Set::<Seq<char>>::empty().union(rotation.in_hand()) =~= Set::<Seq<char>>::empty());
        assert(rotation.ledger@.union(rotation.failed@).union(rotation.in_hand())
            =~= Set::<Seq<char>>::empty());
    }
    rotation
}

} // verus!
