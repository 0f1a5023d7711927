use trapper::expr::ParseError;
use trapper::registry::StateRegistry;
use trapper::text::match_words;

#[test]
fn registry_isolation() {
    let mut reg = StateRegistry::new();
    // interleaved additions across two chats, one of them hot
    for i in 0..10 {
        reg.add_command(&format!("{}~1~aaa~one{}", i, i)).unwrap();
        if i % 2 == 0 {
            reg.add_command(&format!("{}~2~bbb~two{}", i, i)).unwrap();
        }
    }
    let (cmds, ths) = reg.flatten();
    assert_eq!(cmds.iter().filter(|e| e.group_id == 1).count(), 10);
    assert_eq!(cmds.iter().filter(|e| e.group_id == 2).count(), 5);
    assert_eq!(cmds.len(), 15);
    assert_eq!(ths.len(), 0);
}

#[test]
fn snapshot_round_trip() {
    let mut reg = StateRegistry::new();
    reg.add_command("1~10~aaa~ra").unwrap();
    reg.add_command("2~10~bbb~rb").unwrap();
    reg.add_command("3~20~ccc~rc").unwrap();
    reg.add_thought(10, "deep".to_string());
    reg.add_thought(30, "blue".to_string());

    let (cmds, ths) = reg.flatten();
    let reg2 = StateRegistry::rebuild(cmds, ths);
    let (cmds2, ths2) = reg2.flatten();

    assert_eq!(cmds2.iter().filter(|e| e.group_id == 10).count(), 2);
    assert_eq!(cmds2.iter().filter(|e| e.group_id == 20).count(), 1);
    assert_eq!(cmds2.len(), 3);
    assert_eq!(ths2.len(), 2);
    assert!(ths2.contains(&("deep".to_string(), 10)));
    assert!(ths2.contains(&("blue".to_string(), 30)));
}

#[test]
fn trigger_matching() {
    let mut reg = StateRegistry::new();
    reg.add_command("1~5~hello&world~greetings").unwrap();
    let words = match_words("Well hello, World!");
    assert_eq!(reg.match_trigger(5, &words), Some("greetings".to_string()));
    let words2 = match_words("hello there");
    assert_eq!(reg.match_trigger(5, &words2), None);
    // a different chat holds no rules, so nothing matches there
    assert_eq!(reg.match_trigger(99, &words), None);
}

#[test]
fn thoughts_pop() {
    let mut reg = StateRegistry::new();
    assert_eq!(reg.pop_thought(7), None);
    reg.add_thought(7, "only".to_string());
    assert_eq!(reg.pop_thought(7), Some("only".to_string()));
    assert_eq!(reg.pop_thought(7), None);
}

#[test]
fn learning_and_generation() {
    let mut reg = StateRegistry::new();
    assert_eq!(reg.generate(3), None);
    reg.learn(3, "x y".to_string()).unwrap();
    assert_eq!(reg.generate(3), Some("x y".to_string()));
    assert_eq!(reg.generate(4), None);
}

#[test]
fn rejected_command_changes_nothing() {
    let mut reg = StateRegistry::new();
    assert_eq!(reg.add_command("1~2~a|.b~r"), Err(ParseError::BadCharacters));
    assert_eq!(reg.add_command("1~2~a(~r"), Err(ParseError::BadParentheses));
    assert_eq!(reg.add_command("only two~fields"), Err(ParseError::BadSeparators));
    let (cmds, ths) = reg.flatten();
    assert_eq!(cmds.len(), 0);
    assert_eq!(ths.len(), 0);
}
