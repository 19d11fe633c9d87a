use crank::program::{
    dispatch, initialize, Account, Context, DispatchError, Initialize, Instruction, ProgramId,
};

const ID_TEXT: &str = "8RT6jMFXpLXcLLNNUUbC57sro7uLJuKHYZkVGRYtzt14";

fn declared() -> ProgramId {
    crank::program_id().expect("the declared identifier names a key")
}

fn invocation(selector: &str, accounts: Vec<Account>) -> Instruction {
    Instruction { selector: selector.to_string(), accounts, data: Vec::new() }
}

#[test]
fn the_compiled_in_identifier_is_stable() {
    assert_eq!(crank::id(), ID_TEXT);
    assert_eq!(crank::id(), crank::id());
}

#[test]
fn the_declared_identifier_names_a_32_byte_key() {
    let pid = declared();
    assert_eq!(pid.text().as_str(), ID_TEXT);
    assert_eq!(pid.key().len(), 32);
}

#[test]
fn parse_accepts_exactly_what_decodes() {
    assert!(ProgramId::parse(ID_TEXT).is_some());
    assert!(ProgramId::parse("").is_none());
    assert!(ProgramId::parse("not base 58").is_none());
    assert!(ProgramId::parse(&"1".repeat(31)).is_none());
}

#[test]
fn initialize_succeeds_and_logs_one_greeting() {
    let ctx = Context { program_id: declared(), accounts: Initialize {} };
    let mut log: Vec<String> = Vec::new();
    let r = initialize(&ctx, &mut log);
    assert!(r.is_ok());
    assert_eq!(log.len(), 1);
    assert_eq!(log[0], format!("Greetings from: {}", ID_TEXT));
    assert!(log[0].contains(ID_TEXT));
}

#[test]
fn dispatch_routes_initialize_to_the_handler() {
    let mut log: Vec<String> = Vec::new();
    let r = dispatch(declared(), &invocation("initialize", Vec::new()), &mut log);
    assert_eq!(r, Ok(()));
    assert_eq!(log, vec![format!("Greetings from: {}", ID_TEXT)]);
}

#[test]
fn dispatch_ignores_instruction_data() {
    let mut log: Vec<String> = Vec::new();
    let mut ins = invocation("initialize", Vec::new());
    ins.data = vec![1, 2, 3];
    let r = dispatch(declared(), &ins, &mut log);
    assert_eq!(r, Ok(()));
    assert_eq!(log.len(), 1);
}

#[test]
fn unknown_selectors_are_refused_before_any_handler() {
    for other in ["", "init", "Initialize", "withdraw", "initialize "] {
        let mut log: Vec<String> = Vec::new();
        let r = dispatch(declared(), &invocation(other, Vec::new()), &mut log);
        assert_eq!(r, Err(DispatchError::UnknownSelector), "selector {:?}", other);
        assert!(log.is_empty(), "selector {:?} reached the handler", other);
    }
}

#[test]
fn supplied_accounts_are_refused_before_the_handler() {
    let accounts = vec![Account { address: "1".repeat(32) }];
    let mut log: Vec<String> = Vec::new();
    let r = dispatch(declared(), &invocation("initialize", accounts), &mut log);
    assert_eq!(r, Err(DispatchError::UnexpectedAccounts));
    assert!(log.is_empty());
}

#[test]
fn repeated_invocations_are_independent() {
    let mut log: Vec<String> = Vec::new();
    for n in 1..=5usize {
        let r = dispatch(declared(), &invocation("initialize", Vec::new()), &mut log);
        assert_eq!(r, Ok(()));
        assert_eq!(log.len(), n);
    }
    for line in &log {
        assert_eq!(line, &format!("Greetings from: {}", ID_TEXT));
    }
}
