//! The program lifecycle: a validated identifier, a decoded
//! invocation, the dispatch step that routes it, and the single
//! `initialize` handler.
//!
//! The handler performs no I/O of its own: the lines it would emit are
//! appended to a log of strings, and the caller forwards them to the
//! host's log sink.

use vstd::prelude::*;

verus! {

use crate::base58::{base58_val, be_val, decode_key, names_key};

/// A validated program identifier: base-58 text together with the
/// 32-byte key that text names.
pub struct ProgramId {
    text: String,
    key: Vec<u8>,
}

impl ProgramId {
    /// The identifier's base-58 text.
    pub closed spec fn text_view(&self) -> Seq<char> {
        self.text@
    }

    /// The identifier's 32-byte key.
    pub closed spec fn key_view(&self) -> Seq<u8> {
        self.key@
    }

    /// The text names a key, and the stored key is that key.
    pub open spec fn wf(&self) -> bool {
        &&& names_key(self.text_view())
        &&& self.key_view().len() == 32
        &&& be_val(self.key_view()) == base58_val(self.text_view())
    }

    /// Validate base-58 text as a program identifier.
    pub fn parse(text: &str) -> (r: Option<ProgramId>)
        ensures
            r is Some <==> names_key(text@),
            r matches Some(p) ==> p.wf() && p.text_view() == text@,
    {
        match decode_key(text) {
            Some(key) => Some(ProgramId { text: text.to_owned(), key }),
            None => None,
        }
    }

    /// The identifier's base-58 text.
    pub fn text(&self) -> (t: &String)
        ensures
            t@ == self.text_view(),
    {
        &self.text
    }

    /// The identifier's 32-byte key.
    pub fn key(&self) -> (k: &Vec<u8>)
        ensures
            k@ == self.key_view(),
    {
        &self.key
    }
}

/// One account supplied with an invocation, named by the base-58 text
/// of its address.
pub struct Account {
    pub address: String,
}

/// The accounts `initialize` declares: none.
pub struct Initialize {}

/// The context a handler receives: the identifier of the program being
/// run, and the accounts its declaration admits.
pub struct Context {
    pub program_id: ProgramId,
    pub accounts: Initialize,
}

/// Why the dispatcher refused an invocation before any handler ran.
#[derive(Clone, Copy, PartialEq, Eq, Debug)]
pub enum DispatchError {
    /// The selector names no handler of this program.
    UnknownSelector,
    /// The handler declares no accounts, yet some were supplied.
    UnexpectedAccounts,
}

/// A decoded invocation: the selector naming a handler, the accounts
/// supplied with it, and whatever instruction data followed.
pub struct Instruction {
    pub selector: String,
    pub accounts: Vec<Account>,
    pub data: Vec<u8>,
}

/// The selector of the one instruction this program declares.
pub open spec fn initialize_selector() -> Seq<char> {
    "initialize"@
}

/// The log line one invocation emits: a greeting naming the program.
pub open spec fn greeting(id: Seq<char>) -> Seq<char> {
    "Greetings from: "@ + id
}

/// What one invocation of `initialize` does to the emitted lines: it
/// appends exactly one greeting.
pub open spec fn logs_after_initialize(lines: Seq<Seq<char>>, id: Seq<char>) -> Seq<Seq<char>> {
    lines.push(greeting(id))
}

/// The name of the one declared instruction.
pub fn initialize_name() -> (s: &'static str)
    ensures
        s@ == initialize_selector(),
{
    "initialize"
}

/// The `initialize` handler: it greets with the program identifier and
/// succeeds. There is no state to read or write, and no input on which
/// it fails.
pub fn initialize(ctx: &Context, log: &mut Vec<String>) -> (r: Result<(), DispatchError>)
    ensures
        r is Ok,
        final(log).deep_view() == logs_after_initialize(
            old(log).deep_view(),
            ctx.program_id.text_view(),
        ),
{
    let mut line = String::from_str("Greetings from: ");
    line.append(ctx.program_id.text().as_str());
    log.push(line);
    proof {
        assert(log.deep_view() =~= old(log).deep_view().push(
            greeting(ctx.program_id.text_view()),
        ));
    }
    Ok(())
}

/// Route a decoded invocation. The selector and the account count are
/// validated here, before any handler code runs: an invocation that
/// names no handler, or supplies accounts where none are declared, is
/// refused with nothing logged. A valid one reaches `initialize` with
/// the zero-account context and succeeds.
pub fn dispatch(program_id: ProgramId, instruction: &Instruction, log: &mut Vec<String>) -> (r:
    Result<(), DispatchError>)
    ensures
        instruction.selector@ == initialize_selector() && instruction.accounts@.len() == 0 ==> r
            is Ok && final(log).deep_view() == logs_after_initialize(
            old(log).deep_view(),
            program_id.text_view(),
        ),
        instruction.selector@ != initialize_selector() ==> r == Err::<(), DispatchError>(
            DispatchError::UnknownSelector,
        ) && final(log)@ == old(log)@,
        instruction.selector@ == initialize_selector() && instruction.accounts@.len() != 0 ==> r
            == Err::<(), DispatchError>(DispatchError::UnexpectedAccounts) && final(log)@ == old(
            log,
        )@,
{
    let expected = String::from_str("initialize");
    if instruction.selector == expected {
        if instruction.accounts.len() == 0 {
            let ctx = Context { program_id, accounts: Initialize {} };
            initialize(&ctx, log)
        } else {
            Err(DispatchError::UnexpectedAccounts)
        }
    } else {
        Err(DispatchError::UnknownSelector)
    }
}

/// Each emitted line contains the program identifier itself: the
/// identifier's text appears contiguously in the greeting.
pub proof fn lemma_greeting_contains_id(id: Seq<char>)
    ensures
        exists|at: int|
            0 <= at && at + id.len() <= greeting(id).len() && #[trigger] greeting(id).subrange(
                at,
                at + id.len() as int,
            ) == id,
{
    reveal_strlit("Greetings from: ");
    assert(greeting(id).subrange(16, 16 + id.len() as int) =~= id);
}

/// The identifier a program exposes is determined byte for byte by
/// the declared text: two validated identifiers with the same text
/// hold the same 32-byte key.
pub proof fn lemma_id_key_determined(a: ProgramId, b: ProgramId)
    requires
        a.wf(),
        b.wf(),
        a.text_view() == b.text_view(),
    ensures
        a.key_view() == b.key_view(),
{
    crate::base58::lemma_be_val_injective(a.key_view(), b.key_view());
}

/// How the emitted lines stand after some number of successive
/// invocations of `initialize`.
pub open spec fn logs_after_invocations(
    lines: Seq<Seq<char>>,
    id: Seq<char>,
    n: nat,
) -> Seq<Seq<char>>
    decreases n,
{
    if n == 0 {
        lines
    } else {
        logs_after_initialize(logs_after_invocations(lines, id, (n - 1) as nat), id)
    }
}

/// Invocations of `initialize` are independent: each of `n` successive
/// invocations succeeds by `initialize`'s contract, and together they
/// only append: every line emitted before them is untouched, each
/// invocation contributes exactly one line, and every contributed line
/// is the same greeting, there being no state to carry between calls.
pub proof fn lemma_invocations_independent(lines: Seq<Seq<char>>, id: Seq<char>, n: nat)
    ensures
        logs_after_invocations(lines, id, n).len() == lines.len() + n,
        forall|k: int|
            0 <= k < lines.len() ==> #[trigger] logs_after_invocations(lines, id, n)[k]
                == lines[k],
        forall|k: int|
            lines.len() <= k < lines.len() + n ==> #[trigger] logs_after_invocations(
                lines,
                id,
                n,
            )[k] == greeting(id),
    decreases n,
{
    if n > 0 {
        lemma_invocations_independent(lines, id, (n - 1) as nat);
    }
}

} // verus!
