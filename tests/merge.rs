use dmi::icon::{IconState, Looping};
use dmi_copy::{
    find_state, merge_one, merge_states, select_requested, MergeReport, Outcome, StateEntry,
};

fn state(name: &str, frames: u32) -> StateEntry {
    StateEntry {
        name: name.to_string(),
        state: IconState {
            name: name.to_string(),
            dirs: 1,
            frames,
            images: vec![],
            delay: None,
            loop_flag: Looping::Indefinitely,
            rewind: false,
            movement: false,
            hotspot: None,
            unknown_settings: None,
        },
    }
}

fn names(v: &[&str]) -> Vec<String> {
    v.iter().map(|s| s.to_string()).collect()
}

fn layout(d: &[StateEntry]) -> Vec<(String, u32)> {
    d.iter().map(|e| (e.name.clone(), e.state.frames)).collect()
}

fn report(r: &[MergeReport]) -> Vec<(String, Outcome)> {
    r.iter().map(|m| (m.name.clone(), m.outcome)).collect()
}

fn pair(n: &str, f: u32) -> (String, u32) {
    (n.to_string(), f)
}

#[test]
fn replace_identical_add_scenario() {
    let mut dest = vec![state("A", 1), state("B", 1)];
    let source = vec![state("A", 2), state("B", 1), state("C", 1)];
    let r = merge_states(&mut dest, source, &names(&["A", "B", "C"]));
    assert_eq!(layout(&dest), vec![pair("A", 2), pair("B", 1), pair("C", 1)]);
    assert_eq!(
        report(&r),
        vec![
            ("A".to_string(), Outcome::Replaced),
            ("B".to_string(), Outcome::Identical),
            ("C".to_string(), Outcome::Added)
        ]
    );
}

#[test]
fn merging_twice_changes_nothing_more() {
    let src = || vec![state("A", 2), state("B", 1), state("C", 1)];
    let mut dest = vec![state("A", 1), state("B", 1)];
    merge_states(&mut dest, src(), &names(&["A", "C"]));
    let first = layout(&dest);
    let r = merge_states(&mut dest, src(), &names(&["A", "C"]));
    assert_eq!(layout(&dest), first);
    assert!(r.iter().all(|m| m.outcome == Outcome::Identical));
    assert_eq!(r.len(), 2);
}

#[test]
fn appends_follow_source_order() {
    let mut dest = vec![state("X", 1), state("Y", 1), state("Z", 1)];
    let source = vec![state("Q", 1), state("Y", 5), state("P", 1)];
    let r = merge_states(&mut dest, source, &names(&["P", "Y", "Q"]));
    assert_eq!(
        layout(&dest),
        vec![pair("X", 1), pair("Y", 5), pair("Z", 1), pair("Q", 1), pair("P", 1)]
    );
    assert_eq!(
        report(&r),
        vec![
            ("Q".to_string(), Outcome::Added),
            ("Y".to_string(), Outcome::Replaced),
            ("P".to_string(), Outcome::Added)
        ]
    );
}

#[test]
fn absent_names_are_passed_over() {
    let mut dest = vec![state("A", 1)];
    let source = vec![state("A", 3)];
    let r = merge_states(&mut dest, source, &names(&["typo", "A", "missing"]));
    assert_eq!(report(&r), vec![("A".to_string(), Outcome::Replaced)]);
    assert_eq!(layout(&dest), vec![pair("A", 3)]);
}

#[test]
fn nothing_requested_changes_nothing() {
    let mut dest = vec![state("A", 1)];
    let r = merge_states(&mut dest, vec![state("B", 1)], &Vec::new());
    assert!(r.is_empty());
    assert_eq!(layout(&dest), vec![pair("A", 1)]);
}

#[test]
fn replacement_goes_to_the_first_of_a_name() {
    let mut dest = vec![state("A", 1), state("A", 2)];
    merge_states(&mut dest, vec![state("A", 9)], &names(&["A"]));
    assert_eq!(layout(&dest), vec![pair("A", 9), pair("A", 2)]);
}

#[test]
fn duplicated_source_names_are_both_added() {
    let mut dest: Vec<StateEntry> = Vec::new();
    let r = merge_states(&mut dest, vec![state("A", 1), state("A", 2)], &names(&["A"]));
    assert_eq!(layout(&dest), vec![pair("A", 1), pair("A", 2)]);
    assert_eq!(r.len(), 2);
}

#[test]
fn find_and_select() {
    let d = vec![state("A", 1), state("B", 1), state("B", 2)];
    assert_eq!(find_state(&d, &"B".to_string()), Some(1));
    assert_eq!(find_state(&d, &"C".to_string()), None);
    let s = select_requested(d, &names(&["B"]));
    assert_eq!(layout(&s), vec![pair("B", 1), pair("B", 2)]);
}

#[test]
fn merge_one_follows_the_equality_given() {
    let mut dest = vec![state("A", 1), state("B", 1)];
    let mut pending: Vec<StateEntry> = Vec::new();

    let o = merge_one(&mut dest, &mut pending, state("B", 7), true);
    assert_eq!(o, Outcome::Identical);
    assert_eq!(layout(&dest), vec![pair("A", 1), pair("B", 1)]);
    assert!(pending.is_empty());

    let o = merge_one(&mut dest, &mut pending, state("B", 7), false);
    assert_eq!(o, Outcome::Replaced);
    assert_eq!(layout(&dest), vec![pair("A", 1), pair("B", 7)]);
    assert!(pending.is_empty());

    let o = merge_one(&mut dest, &mut pending, state("C", 3), false);
    assert_eq!(o, Outcome::Added);
    assert_eq!(layout(&dest), vec![pair("A", 1), pair("B", 7)]);
    assert_eq!(layout(&pending), vec![pair("C", 3)]);
}
