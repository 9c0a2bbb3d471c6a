use obmerge::console::{is_allowed_symbol, split_words, Console, ConsoleAction};

#[test]
fn allowed_symbols() {
    assert!(is_allowed_symbol("ethbtc"));
    assert!(is_allowed_symbol("ethusdt"));
    assert!(is_allowed_symbol("btcusdt"));
    assert!(!is_allowed_symbol("ETHBTC"));
    assert!(!is_allowed_symbol("dogeusdt"));
    assert!(!is_allowed_symbol(""));
}

#[test]
fn prompt_shows_status() {
    let mut c = Console::new();
    assert_eq!(c.prompt(), "offline>");
    c.step("start ethbtc");
    assert_eq!(c.prompt(), "online>");
}

#[test]
fn start_stop_cycle() {
    let mut c = Console::new();
    match c.step("  start   ethusdt \n") {
        ConsoleAction::Start(p) => assert_eq!(p, "ethusdt"),
        other => panic!("unexpected {:?}", other),
    }
    assert!(c.online);
    assert!(matches!(c.step("start btcusdt"), ConsoleAction::AlreadyOnline));
    assert!(c.online);
    assert!(matches!(c.step("stop"), ConsoleAction::Stop));
    assert!(!c.online);
    assert!(matches!(c.step("stop"), ConsoleAction::Stop));
    assert!(!c.online);
}

#[test]
fn start_needs_an_allowed_symbol() {
    let mut c = Console::new();
    assert!(matches!(c.step("start"), ConsoleAction::MissingSymbol));
    assert!(matches!(c.step("start xyz"), ConsoleAction::SymbolNotAllowed));
    assert!(!c.online);
}

#[test]
fn other_lines() {
    let mut c = Console::new();
    assert!(matches!(c.step(""), ConsoleAction::Nothing));
    assert!(matches!(c.step("   \t "), ConsoleAction::Nothing));
    assert!(matches!(c.step("continue"), ConsoleAction::Nothing));
    assert!(matches!(c.step("quit now"), ConsoleAction::Quit));
    assert!(matches!(c.step("hello"), ConsoleAction::Unimplemented));
    assert!(!c.online);
}

#[test]
fn split_words_agrees_with_split_whitespace() {
    let lines = [
        "",
        "   ",
        "start ethbtc",
        "  start\t\tethbtc \n",
        "a\u{3000}b\u{00a0}c\u{2028}d\u{85}e",
        "x\u{200b}y",
        "\u{1680}only\u{205f}",
        "quit",
    ];
    for line in lines.iter() {
        let expected: Vec<String> = line.split_whitespace().map(String::from).collect();
        assert_eq!(split_words(line), expected, "line {:?}", line);
    }
}

#[test]
fn unicode_white_space_separates_commands() {
    let mut c = Console::new();
    match c.step("start\u{3000}btcusdt") {
        ConsoleAction::Start(p) => assert_eq!(p, "btcusdt"),
        other => panic!("unexpected {:?}", other),
    }
}
