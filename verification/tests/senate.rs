use csp_solver::senate::{
    can_parse, count_correct, crosscheck, euclidean_distance, evaluate, field, floor_root,
    hamming_distance, homogeneous, homogeneous_disorder, parse, parse_bill, parse_bills, partition,
    predictions, DisorderTree, Legislator, NearestNeighboursClassifier, Party, Vote,
};

fn legislator(name: &str, party: Party, votes: &str) -> Legislator {
    Legislator { name: name.to_string(), party, votes: Vote::new_votes(votes) }
}

#[test]
pub fn euclidean() {
    let l1 = Legislator {
        name: "".to_string(),
        party: Party::Democrat,
        votes: vec![Vote::Yea, Vote::Yea],
    };
    let l2 = Legislator {
        name: "".to_string(),
        party: Party::Democrat,
        votes: vec![Vote::Yea, Vote::Nay],
    };

    let distance = euclidean_distance(&l1, &l2);

    assert_eq!(2, distance);
}

#[test]
fn euclidean_rounds_down() {
    // Differences 1, 1 and 2: the squares add up to 6, whose root is 2.44...
    let l1 = legislator("a", Party::Democrat, "119");
    let l2 = legislator("b", Party::Democrat, "994");
    assert_eq!(euclidean_distance(&l1, &l2), 1);
    let l3 = legislator("c", Party::Democrat, "111");
    let l4 = legislator("d", Party::Democrat, "994");
    assert_eq!(euclidean_distance(&l3, &l4), 2);
}

#[test]
fn floor_root_is_exact() {
    assert_eq!(floor_root(0), 0);
    assert_eq!(floor_root(1), 1);
    assert_eq!(floor_root(3), 1);
    assert_eq!(floor_root(4), 2);
    assert_eq!(floor_root(99), 9);
    assert_eq!(floor_root(100), 10);
    assert_eq!(floor_root(u64::MAX), 4294967295);
}

#[test]
fn hamming_counts_differences() {
    let l1 = legislator("a", Party::Democrat, "1234569");
    let l2 = legislator("b", Party::Democrat, "3216549");
    // Yea Yea Yea Nay Nay Nay Absent on both sides.
    assert_eq!(hamming_distance(&l1, &l2), 0);
    // Nay Yea Yea and four absences: the first differs, and the three nays.
    let l3 = legislator("c", Party::Democrat, "4119999");
    assert_eq!(hamming_distance(&l1, &l3), 4);
}

#[test]
fn codes_of_parties_and_votes() {
    assert_eq!(Party::new("100"), Party::Democrat);
    assert_eq!(Party::new("200"), Party::Republican);
    assert_eq!(Party::new("328"), Party::Independent);
    assert_eq!(Party::new("10"), Party::Independent);
    assert_eq!(Party::new("1000"), Party::Independent);
    assert_eq!(Vote::new('1'), Vote::Yea);
    assert_eq!(Vote::new('3'), Vote::Yea);
    assert_eq!(Vote::new('4'), Vote::Nay);
    assert_eq!(Vote::new('6'), Vote::Nay);
    assert_eq!(Vote::new('0'), Vote::Absent);
    assert_eq!(Vote::new('7'), Vote::Absent);
    assert_eq!(Vote::new_votes("1479"), vec![Vote::Yea, Vote::Nay, Vote::Absent, Vote::Absent]);
    assert_eq!(Vote::Yea.weight(), 1);
    assert_eq!(Vote::Nay.weight(), -1);
    assert_eq!(Vote::Absent.weight(), 0);
    assert_eq!(Vote::Absent.to_text(), "Absent/Abstain");
    assert_eq!(Vote::Yea.to_text(), "Yes");
    assert_eq!(Vote::Nay.to_text(), "No");
}

#[test]
fn crosscheck_puts_the_outer_two_of_four_first() {
    let group: Vec<Legislator> = (0..10)
        .map(|i| legislator(&format!("{}", i), Party::Democrat, "1"))
        .collect();
    let (g1, g2) = crosscheck(group);
    let names = |g: &Vec<Legislator>| -> Vec<String> { g.iter().map(|l| l.name.clone()).collect() };
    assert_eq!(names(&g1), vec!["0", "3", "4", "7", "8"]);
    assert_eq!(names(&g2), vec!["1", "2", "5", "6", "9"]);
}

#[test]
fn classifier_tells_the_party_of_the_nearest() {
    let train = vec![
        legislator("d1", Party::Democrat, "1111"),
        legislator("r1", Party::Republican, "4444"),
        legislator("i1", Party::Independent, "1144"),
    ];
    let classifier = NearestNeighboursClassifier::new(hamming_distance, 3, &train);
    assert_eq!(classifier.classify(&legislator("q", Party::Democrat, "1114")), Party::Democrat);
    assert_eq!(classifier.classify(&legislator("q", Party::Democrat, "4441")), Party::Republican);
    assert_eq!(classifier.classify(&legislator("q", Party::Democrat, "1144")), Party::Independent);
    // The first of two at the same distance.
    assert_eq!(classifier.classify(&legislator("q", Party::Republican, "1199")), Party::Democrat);
    // No neighbour asked for, or no training data: a democrat.
    let none = NearestNeighboursClassifier::new(hamming_distance, 0, &train);
    assert_eq!(none.classify(&legislator("q", Party::Republican, "4444")), Party::Democrat);
    let empty = vec![];
    let blind = NearestNeighboursClassifier::new(hamming_distance, 3, &empty);
    assert_eq!(blind.classify(&legislator("q", Party::Republican, "4444")), Party::Democrat);
}

#[test]
fn evaluate_counts_the_members_told_right() {
    let g1 = vec![
        legislator("d1", Party::Democrat, "1111"),
        legislator("r1", Party::Republican, "4444"),
    ];
    let g2 = vec![
        legislator("d2", Party::Democrat, "1114"),
        legislator("r2", Party::Republican, "4441"),
        legislator("i2", Party::Independent, "4411"),
    ];
    assert_eq!(count_correct(hamming_distance, 1, &g2, &g1), 2);
    assert_eq!(count_correct(hamming_distance, 1, &g1, &g2), 2);
    assert_eq!(evaluate(hamming_distance, 1, &g1, &g2), 4);
    assert_eq!(evaluate(euclidean_distance, 1, &g1, &g2), 4);
}

#[test]
fn partition_and_disorder() {
    let a = legislator("a", Party::Democrat, "14");
    let b = legislator("b", Party::Democrat, "11");
    let c = legislator("c", Party::Republican, "44");
    let all = vec![&a, &b, &c];
    let (yes, no) = partition(&all, 0, Vote::Yea);
    assert_eq!(yes.len(), 2);
    assert_eq!(no.len(), 1);
    assert_eq!(yes[0].name, "a");
    assert_eq!(yes[1].name, "b");
    assert_eq!(no[0].name, "c");
    assert!(homogeneous(&yes).is_some());
    assert!(homogeneous(&all).is_none());
    assert_eq!(homogeneous_disorder(yes, no), -3);
    let (yes, no) = partition(&all, 1, Vote::Nay);
    // a and c: of two parties, so only the part of b counts.
    assert_eq!(homogeneous_disorder(yes, no), -1);
}

#[test]
fn disorder_tree_tells_every_training_member() {
    let train = vec![
        legislator("d1", Party::Democrat, "1141"),
        legislator("d2", Party::Democrat, "1114"),
        legislator("r1", Party::Republican, "4414"),
        legislator("r2", Party::Republican, "4441"),
        legislator("i1", Party::Independent, "1441"),
    ];
    let refs: Vec<&Legislator> = train.iter().collect();
    let tree = DisorderTree::new(refs);
    assert_eq!(tree.leaf_party(), None);
    for member in train.iter() {
        assert_eq!(tree.classify(member), member.party);
    }
    let one = vec![&train[0], &train[1]];
    assert_eq!(DisorderTree::new(one).leaf_party(), Some(Party::Democrat));
}

#[test]
fn fields_of_a_line() {
    let line: Vec<char> = "110,1,S,HR1234,x,y,An act, to do things,z".chars().collect();
    assert_eq!(field(&line, 0), "110");
    assert_eq!(field(&line, 3), "HR1234");
    assert_eq!(field(&line, 6), "An act");
    assert_eq!(field(&line, 7), " to do things");
    assert_eq!(field(&line, 8), "z");
    assert_eq!(field(&line, 9), "");
    let bill = parse_bill(&line);
    assert_eq!(bill.code, "HR1234");
    assert_eq!(bill.description, "An act");
    let short: Vec<char> = "a,,b".chars().collect();
    assert_eq!(field(&short, 1), "");
    assert_eq!(field(&short, 2), "b");
    assert_eq!(parse_bill(&short).code, "");
}

#[test]
fn bills_of_a_table_skip_the_first_line() {
    let table = "a,b,c,code,e,f,description\r\n1,2,3,S1,5,6,First\n1,2,3,S2\n";
    let bills = parse_bills(table);
    assert_eq!(bills.len(), 2);
    assert_eq!(bills[0].code, "S1");
    assert_eq!(bills[0].description, "First");
    assert_eq!(bills[1].code, "S2");
    assert_eq!(bills[1].description, "");
    assert_eq!(parse_bills("").len(), 0);
    assert_eq!(parse_bills("only a header").len(), 0);
}

#[test]
fn legislators_of_a_roll_call() {
    //          0         1         2         3
    //          0123456789012345678901234567890123456789
    let data = "1109990999 0USA     200  BUSH       1469\n\
                1101450541 0ALABAMA 100  SESSIONS   6611\r\n\
                1101450541 0VERMONT 328  SANDERS    ";
    assert!(can_parse(data));
    let legislators = parse(data);
    assert_eq!(legislators.len(), 3);
    assert_eq!(legislators[0].name, "BUSH       ");
    assert_eq!(legislators[0].party, Party::Republican);
    assert_eq!(
        legislators[0].votes,
        vec![Vote::Yea, Vote::Nay, Vote::Nay, Vote::Absent]
    );
    assert_eq!(legislators[1].name, "SESSIONS   ");
    assert_eq!(legislators[1].party, Party::Democrat);
    assert_eq!(legislators[1].votes.len(), 4);
    assert_eq!(legislators[2].party, Party::Independent);
    assert_eq!(legislators[2].votes.len(), 0);
    assert!(!can_parse("too short"));
    assert!(!can_parse("1109990999 0USA     200  BÜSH       1469"));
    assert!(can_parse(""));
}

#[test]
fn predictions_for_every_member() {
    let train = vec![
        legislator("d1", Party::Democrat, "1111"),
        legislator("r1", Party::Republican, "4444"),
    ];
    let test = vec![
        legislator("a", Party::Republican, "1114"),
        legislator("b", Party::Republican, "4144"),
    ];
    assert_eq!(
        predictions(hamming_distance, 1, &test, &train),
        vec![Party::Democrat, Party::Republican]
    );
}
