use solver::knowledge::{Fact, Knowledge, QueueEntry};
use solver::parse;

fn fact(id: usize, text: &str, expect: bool) -> Fact {
    Fact { id, formula: parse(text).unwrap(), expect }
}

#[test]
fn an_entry_that_the_queue_lacks_changes_nothing() {
    let mut knowledge = Knowledge::new(vec![]);
    knowledge.queue(0, parse("a").unwrap(), true);
    let (taken, repeated) =
        knowledge.process_queue_entry(QueueEntry::Standard(3, fact(7, "b", false)));
    assert_eq!(taken.id, 7);
    assert_eq!(taken.formula, parse("b").unwrap());
    assert!(!taken.expect);
    assert!(!repeated);
    assert_eq!(knowledge.generate_queue().len(), 1);
}

#[test]
fn an_entry_of_the_queue_leaves_it() {
    let mut knowledge = Knowledge::new(vec![]);
    knowledge.queue(0, parse("a").unwrap(), true);
    knowledge.queue(1, parse("b").unwrap(), false);
    let (taken, repeated) =
        knowledge.process_queue_entry(QueueEntry::Standard(0, fact(0, "a", true)));
    assert_eq!(taken.id, 0);
    assert!(!repeated);
    let rest = knowledge.generate_queue();
    assert_eq!(rest.len(), 1);
    assert!(matches!(&rest[0], QueueEntry::Standard(0, f) if f.id == 1));
}

#[test]
fn a_repeater_offers_each_known_name_once() {
    let mut knowledge = Knowledge::new(vec!["c".to_string(), "d".to_string()]);
    knowledge.add_repeater(4, "x".to_string(), parse("P(x)").unwrap(), true);
    let offered = knowledge.generate_queue();
    assert_eq!(offered.len(), 2);
    assert!(matches!(&offered[0], QueueEntry::Repeated(0, f, c)
        if f.id == 4 && f.formula == parse("P(c)").unwrap() && c == "c"));
    let (taken, repeated) = knowledge.pop().unwrap();
    assert!(repeated);
    assert_eq!(taken.formula, parse("P(c)").unwrap());
    let offered = knowledge.generate_queue();
    assert_eq!(offered.len(), 1);
    assert!(matches!(&offered[0], QueueEntry::Repeated(0, f, c)
        if f.formula == parse("P(d)").unwrap() && c == "d"));
    knowledge.register_constant("d".to_string());
    assert_eq!(knowledge.generate_queue().len(), 1);
    knowledge.register_constant("e".to_string());
    assert_eq!(knowledge.generate_queue().len(), 2);
}

#[test]
fn a_fact_is_new_known_or_refuted() {
    let mut knowledge = Knowledge::new(vec![]);
    assert!(matches!(knowledge.fact(parse("a").unwrap(), true), Ok(true)));
    assert!(matches!(knowledge.fact(parse("a").unwrap(), true), Ok(false)));
    assert!(knowledge.fact(parse("a").unwrap(), false).is_err());
    assert_eq!(knowledge.known(&parse("a").unwrap()), Some(true));
    assert_eq!(knowledge.known(&parse("b").unwrap()), None);
    assert!(knowledge.contra(&parse("a").unwrap(), false));
    assert!(!knowledge.contra(&parse("a").unwrap(), true));
}

#[test]
fn the_most_urgent_work_is_taken_first() {
    let mut knowledge = Knowledge::new(vec![]);
    knowledge.queue(0, parse("a = b").unwrap(), true);
    knowledge.queue(1, parse("a | b").unwrap(), true);
    knowledge.queue(2, parse("a & b").unwrap(), true);
    knowledge.queue(3, parse("c").unwrap(), true);
    knowledge.queue(4, parse("d").unwrap(), false);
    let order: Vec<usize> = (0..5).map(|_| knowledge.pop().unwrap().0.id).collect();
    assert_eq!(order, vec![3, 4, 2, 1, 0]);
    assert!(knowledge.pop().is_none());
}
