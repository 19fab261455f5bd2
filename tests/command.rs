use sable_network::command::{CommandDispatcher, CommandError, CommandHandler};

#[test]
fn resolves_in_any_case() {
    let d = CommandDispatcher::new();
    assert_eq!(d.resolve_command(b"privmsg").map(|r| r.handler), Some(CommandHandler::Privmsg));
    assert_eq!(d.resolve_command(b"ChatHistory").map(|r| r.handler), Some(CommandHandler::Chathistory));
    assert!(d.resolve_command(b"FROB").is_none());
    assert!(d.resolve_command(b"").is_none());
}

#[test]
fn dispatch_checks() {
    let d = CommandDispatcher::new();
    assert_eq!(d.dispatch(b"frob", 3, true), Err(CommandError::UnknownCommand));
    assert_eq!(d.dispatch(b"JOIN", 0, true), Err(CommandError::NotEnoughParameters));
    assert_eq!(d.dispatch(b"JOIN", 1, false), Err(CommandError::NotRegistered));
    assert_eq!(d.dispatch(b"user", 4, true), Err(CommandError::AlreadyRegistered));
    assert_eq!(d.dispatch(b"user", 4, false), Ok(CommandHandler::User));
    assert_eq!(d.dispatch(b"nick", 1, false), Ok(CommandHandler::Nick));
    assert_eq!(d.dispatch(b"nick", 1, true), Ok(CommandHandler::Nick));
    assert_eq!(d.dispatch(b"quit", 0, true), Ok(CommandHandler::Quit));
}
