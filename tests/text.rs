use mm0_server::server::Position;
use mm0_server::text::{apply_change, apply_changes, offset, Change};

fn chars(s: &str) -> Vec<char> {
    s.chars().collect()
}

fn pos(line: u32, character: u32) -> Position {
    Position { line, character }
}

fn edit(a: Position, b: Position, t: &str) -> Change {
    Change { range: Some((a, b)), text: chars(t) }
}

#[test]
fn offsets_by_line_and_character() {
    let t = chars("ab\ncd\n\nxyz");
    assert_eq!(offset(&t, pos(0, 0)), 0);
    assert_eq!(offset(&t, pos(0, 2)), 2);
    assert_eq!(offset(&t, pos(0, 9)), 2);
    assert_eq!(offset(&t, pos(1, 1)), 4);
    assert_eq!(offset(&t, pos(2, 0)), 6);
    assert_eq!(offset(&t, pos(2, 5)), 6);
    assert_eq!(offset(&t, pos(3, 2)), 9);
    assert_eq!(offset(&t, pos(9, 0)), t.len());
}

#[test]
fn single_edits() {
    let t = chars("hello\nworld");
    let r = apply_change(&t, &edit(pos(1, 0), pos(1, 5), "there"));
    assert_eq!(r.iter().collect::<String>(), "hello\nthere");
    let r = apply_change(&t, &edit(pos(0, 5), pos(1, 0), " "));
    assert_eq!(r.iter().collect::<String>(), "hello world");
    let r = apply_change(&t, &edit(pos(0, 3), pos(0, 1), "X"));
    assert_eq!(r.iter().collect::<String>(), "helXlo\nworld");
    let r = apply_change(&t, &Change { range: None, text: chars("new") });
    assert_eq!(r.iter().collect::<String>(), "new");
}

#[test]
fn edits_in_order_with_earliest_start() {
    let t = chars("one\ntwo\nthree");
    let cs = vec![edit(pos(2, 0), pos(2, 5), "3"), edit(pos(1, 1), pos(1, 2), "W"), edit(pos(0, 0), pos(0, 0), "")];
    let (r, start) = apply_changes(&t, &cs);
    assert_eq!(r.iter().collect::<String>(), "one\ntWo\n3");
    assert_eq!(start, pos(0, 0));
    let cs = vec![edit(pos(2, 1), pos(2, 2), "H"), edit(pos(1, 2), pos(1, 3), "O")];
    let (r, start) = apply_changes(&t, &cs);
    assert_eq!(r.iter().collect::<String>(), "one\ntwO\ntHree");
    assert_eq!(start, pos(1, 2));
    let (r, start) = apply_changes(&t, &vec![]);
    assert_eq!(r, t);
    assert_eq!(start, pos(0, 0));
}
