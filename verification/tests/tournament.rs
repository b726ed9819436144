use tobiuo::{parse_dfa, simulate, simulate_nvn, CompressedState, RosterError};

fn entry(name: &str, text: &str, weight: u16) -> (String, Vec<CompressedState>, u16) {
    (name.to_string(), parse_dfa(text).unwrap(), weight)
}

const GO: &str = "0:g,0,0";
const WAIT: &str = "0:w,0,0";
const COPYCAT: &str = "0:w,1,0\n1:g,1,0\n";

#[test]
fn two_entries_of_weight_one() {
    let roster = vec![entry("go", GO, 1), entry("wait", WAIT, 1)];
    assert_eq!(simulate_nvn(&roster, 1), Ok(vec![7, -3]));
}

#[test]
fn an_entry_counts_one_less_of_itself() {
    // go: (-1) * (3 - 1) + 7 * 2; wait: (-3) * 3 + 1 * (2 - 1).
    let roster = vec![entry("go", GO, 3), entry("wait", WAIT, 2)];
    assert_eq!(simulate_nvn(&roster, 1), Ok(vec![12, -8]));
}

#[test]
fn a_single_entry_of_weight_one_meets_nobody() {
    let roster = vec![entry("go", GO, 1)];
    assert_eq!(simulate_nvn(&roster, 100), Ok(vec![0]));
}

#[test]
fn a_single_entry_meets_its_other_copies() {
    let roster = vec![entry("wait", WAIT, 5)];
    assert_eq!(simulate_nvn(&roster, 10), Ok(vec![40]));
}

#[test]
fn totals_follow_the_pairwise_scores() {
    let roster = vec![entry("go", GO, 2), entry("wait", WAIT, 3), entry("copycat", COPYCAT, 4)];
    let turns = 7;
    let weights = [2i64, 3, 4];
    let mut expected = Vec::new();
    for p in 0..roster.len() {
        let mut total = 0i64;
        for o in 0..roster.len() {
            let score = simulate(&roster[p].1, &roster[o].1, turns).0;
            let count = if p == o { weights[o] - 1 } else { weights[o] };
            total += score * count;
        }
        expected.push(total);
    }
    assert_eq!(simulate_nvn(&roster, turns), Ok(expected));
}

#[test]
fn totals_come_in_the_order_of_the_roster() {
    let forward = vec![entry("go", GO, 1), entry("wait", WAIT, 1)];
    let backward = vec![entry("wait", WAIT, 1), entry("go", GO, 1)];
    assert_eq!(simulate_nvn(&forward, 2), Ok(vec![14, -6]));
    assert_eq!(simulate_nvn(&backward, 2), Ok(vec![-6, 14]));
}

#[test]
fn the_greatest_weight_is_65535() {
    let roster = vec![entry("go", GO, 65535), entry("wait", WAIT, 65535)];
    assert_eq!(
        simulate_nvn(&roster, 255),
        Ok(vec![-255 * 65534 + 1785 * 65535, -765 * 65535 + 255 * 65534])
    );
}

#[test]
fn an_empty_roster_has_no_totals() {
    assert_eq!(simulate_nvn(&Vec::new(), 10), Ok(Vec::new()));
}

#[test]
fn no_turns_give_totals_of_zero() {
    let roster = vec![entry("go", GO, 4), entry("wait", WAIT, 9)];
    assert_eq!(simulate_nvn(&roster, 0), Ok(vec![0, 0]));
}

#[test]
fn a_weight_of_zero_is_refused() {
    let roster = vec![entry("go", GO, 1), entry("wait", WAIT, 0)];
    assert_eq!(simulate_nvn(&roster, 1), Err(RosterError::InvalidWeight));
    let roster = vec![entry("go", GO, 0)];
    assert_eq!(simulate_nvn(&roster, 0), Err(RosterError::InvalidWeight));
}
