//! Votes of legislators: distances between voting records, a split of a
//! group for cross checking, and classifiers that guess the party of a
//! legislator from the votes.

use crate::text::{chars_of, lines, lines_of, push_text, rows, string_of};
use vstd::prelude::*;
use vstd::string::*;

verus! {

/// A bill that was voted on.
#[derive(Debug)]
pub struct Bill {
    pub code: String,
    pub description: String,
}

/// A party.
#[derive(Clone, Copy, Debug, PartialEq, Eq, Hash, Structural)]
pub enum Party {
    Democrat,
    Republican,
    Independent,
}

/// A vote on one bill.
#[derive(Clone, Copy, Debug, PartialEq, Eq, Hash, Structural)]
pub enum Vote {
    Yea,
    Nay,
    Absent,
}

/// A legislator with the votes cast, bill by bill.
#[derive(Debug)]
pub struct Legislator {
    pub name: String,
    pub party: Party,
    pub votes: Vec<Vote>,
}

/// The party that a code stands for.
pub open spec fn party_of(code: Seq<char>) -> Party {
    if code == seq!['1', '0', '0'] {
        Party::Democrat
    } else if code == seq!['2', '0', '0'] {
        Party::Republican
    } else {
        Party::Independent
    }
}

/// The vote that a code stands for.
pub open spec fn vote_of(code: char) -> Vote {
    if code == '1' || code == '2' || code == '3' {
        Vote::Yea
    } else if code == '4' || code == '5' || code == '6' {
        Vote::Nay
    } else {
        Vote::Absent
    }
}

impl Party {
    /// The party of a code: `100` is a democrat, `200` a republican, and
    /// everything else an independent.
    pub fn new(code: &str) -> (party: Self)
        ensures
            party == party_of(code@),
    {
        if code.unicode_len() != 3 {
            return Party::Independent;
        }
        let a = code.get_char(0);
        let b = code.get_char(1);
        let c = code.get_char(2);
        if a == '1' && b == '0' && c == '0' {
            assert(code@ =~= seq!['1', '0', '0']);
            Party::Democrat
        } else if a == '2' && b == '0' && c == '0' {
            assert(code@ =~= seq!['2', '0', '0']);
            Party::Republican
        } else {
            Party::Independent
        }
    }
}

impl Vote {
    /// The vote of a code: `1` to `3` are a yea, `4` to `6` a nay, and
    /// everything else an absence.
    pub fn new(code: char) -> (vote: Self)
        ensures
            vote == vote_of(code),
    {
        match code {
            '1' | '2' | '3' => Vote::Yea,
            '4' | '5' | '6' => Vote::Nay,
            _ => Vote::Absent,
        }
    }

    /// The votes of a row of codes.
    pub fn new_votes(votes: &str) -> (list: Vec<Self>)
        ensures
            list@ == votes@.map_values(|code: char| vote_of(code)),
    {
        let n = votes.unicode_len();
        let mut list: Vec<Vote> = Vec::new();
        let mut i: usize = 0;
        while i < n
            invariant
                i <= n,
                n == votes@.len(),
                list@ == votes@.take(i as int).map_values(|code: char| vote_of(code)),
            decreases n - i,
        {
            list.push(Vote::new(votes.get_char(i)));
            assert(list@ =~= votes@.take(i + 1).map_values(|code: char| vote_of(code)));
            i += 1;
        }
        assert(votes@.take(n as int) =~= votes@);
        list
    }

    /// The vote as a number: a yea is 1, a nay -1 and an absence 0.
    pub fn weight(self) -> (w: i64)
        ensures
            w == vote_weight(self),
    {
        match self {
            Vote::Yea => 1,
            Vote::Nay => -1,
            Vote::Absent => 0,
        }
    }

    /// The vote in words.
    pub fn to_text(self) -> (text: String)
        ensures
            text@ == vote_word(self),
    {
        let mut text = String::new();
        self.fmt(&mut text);
        assert(text@ =~= vote_word(self));
        text
    }

    /// Appends the vote in words to `out`.
    pub fn fmt(&self, out: &mut String)
        ensures
            final(out)@ == old(out)@ + vote_word(*self),
    {
        match self {
            Vote::Yea => push_text(out, "Yes"),
            Vote::Nay => push_text(out, "No"),
            Vote::Absent => push_text(out, "Absent/Abstain"),
        }
    }
}

/// A vote in words.
pub open spec fn vote_word(vote: Vote) -> Seq<char> {
    match vote {
        Vote::Yea => "Yes"@,
        Vote::Nay => "No"@,
        Vote::Absent => "Absent/Abstain"@,
    }
}

/// The number of a vote.
pub open spec fn vote_weight(vote: Vote) -> int {
    match vote {
        Vote::Yea => 1,
        Vote::Nay => -1,
        Vote::Absent => 0,
    }
}

/// The members of `group` at the positions below `n` that belong to the
/// first half of a cross check (`first`) or to the second: of every four in
/// a row, the outer two are in the first half.
pub open spec fn half(group: Seq<Legislator>, n: int, first: bool) -> Seq<Legislator>
    decreases n,
{
    if n <= 0 {
        Seq::empty()
    } else if ((n - 1) % 4 == 0 || (n - 1) % 4 == 3) == first {
        half(group, n - 1, first).push(group[n - 1])
    } else {
        half(group, n - 1, first)
    }
}

/// Splits a group into two halves for cross checking: of every four
/// members in a row, the first and the last go to the first half.
pub fn crosscheck(group: Vec<Legislator>) -> (halves: (Vec<Legislator>, Vec<Legislator>))
    ensures
        halves.0@ == half(group@, group@.len() as int, true),
        halves.1@ == half(group@, group@.len() as int, false),
{
    let mut g1: Vec<Legislator> = Vec::new();
    let mut g2: Vec<Legislator> = Vec::new();
    let ghost all = group@;
    let n = group.len();
    let mut i: usize = 0;
    for leg in iter: group
        invariant
            iter.seq() == all,
            all.len() == n,
            i == iter.index(),
            g1@ == half(all, i as int, true),
            g2@ == half(all, i as int, false),
    {
        if i % 4 == 0 || i % 4 == 3 {
            g1.push(leg);
        } else {
            g2.push(leg);
        }
        i += 1;
    }
    (g1, g2)
}

/// The number of positions below `n` at which two voting records differ.
pub open spec fn differences(left: Seq<Vote>, right: Seq<Vote>, n: int) -> nat
    decreases n,
{
    if n <= 0 {
        0
    } else {
        differences(left, right, n - 1) + if left[n - 1] != right[n - 1] {
            1nat
        } else {
            0nat
        }
    }
}

/// The number of bills on which two legislators voted differently. The
/// record of `right` must reach as far as that of `left`.
pub fn hamming_distance(left: &Legislator, right: &Legislator) -> (distance: i64)
    requires
        left.votes.len() <= right.votes.len(),
        left.votes.len() <= i64::MAX,
    ensures
        distance == differences(left.votes@, right.votes@, left.votes.len() as int),
{
    let mut distance: i64 = 0;
    let mut i: usize = 0;
    while i < left.votes.len()
        invariant
            i <= left.votes.len(),
            left.votes.len() <= right.votes.len(),
            left.votes.len() <= i64::MAX,
            0 <= distance <= i,
            distance == differences(left.votes@, right.votes@, i as int),
        decreases left.votes.len() - i,
    {
        if left.votes[i] != right.votes[i] {
            distance += 1;
        }
        i += 1;
    }
    distance
}

/// The squares of the differences of the numbers of the votes at the
/// positions below `n`, added up.
pub open spec fn squared_distance(left: Seq<Vote>, right: Seq<Vote>, n: int) -> nat
    decreases n,
{
    if n <= 0 {
        0
    } else {
        let d = vote_weight(left[n - 1]) - vote_weight(right[n - 1]);
        squared_distance(left, right, n - 1) + (d * d) as nat
    }
}

/// Whether `root` is the square root of `n`, rounded down.
pub open spec fn is_floor_root(root: int, n: int) -> bool {
    0 <= root && root * root <= n < (root + 1) * (root + 1)
}

/// The square root of `n`, rounded down.
pub fn floor_root(n: u64) -> (root: u64)
    ensures
        is_floor_root(root as int, n as int),
{
    if n == 0 {
        return 0;
    }
    let mut low: u64 = 0;
    let mut high: u64 = if n < 4294967296 {
        n
    } else {
        4294967295
    };
    assert(n < (high + 1) * (high + 1)) by (nonlinear_arith)
        requires
            n > 0,
            high == (if n < 4294967296 {
                n
            } else {
                4294967295
            }),
            n <= u64::MAX,
    ;
    while low < high
        invariant
            low <= high <= 4294967295,
            low * low <= n < (high + 1) * (high + 1),
        decreases high - low,
    {
        let mid = low + (high - low + 1) / 2;
        assert(mid * mid <= 4294967295 * 4294967295) by (nonlinear_arith)
            requires
                mid <= 4294967295,
        ;
        if mid * mid <= n {
            low = mid;
        } else {
            high = mid - 1;
        }
    }
    low
}

/// The distance between the voting records of two legislators as points:
/// the square root, rounded down, of the squared differences added up. The
/// record of `right` must reach as far as that of `left`.
pub fn euclidean_distance(left: &Legislator, right: &Legislator) -> (distance: i64)
    requires
        left.votes.len() <= right.votes.len(),
        left.votes.len() * 4 <= i64::MAX,
    ensures
        is_floor_root(
            distance as int,
            squared_distance(left.votes@, right.votes@, left.votes.len() as int) as int,
        ),
{
    let mut total: u64 = 0;
    let mut i: usize = 0;
    while i < left.votes.len()
        invariant
            i <= left.votes.len(),
            left.votes.len() <= right.votes.len(),
            left.votes.len() * 4 <= i64::MAX,
            total <= 4 * i,
            total == squared_distance(left.votes@, right.votes@, i as int),
        decreases left.votes.len() - i,
    {
        let l = left.votes[i].weight();
        let r = right.votes[i].weight();
        let d = l - r;
        assert(0 <= d * d <= 4) by (nonlinear_arith)
            requires
                -2 <= d <= 2,
        ;
        total = total + (d * d) as u64;
        i += 1;
    }
    let root = floor_root(total);
    assert(root <= total) by (nonlinear_arith)
        requires
            root * root <= total,
            0 <= root,
    ;
    root as i64
}

/// The position of the first of the least of the first `n` numbers.
pub open spec fn first_least(numbers: Seq<i64>, n: int) -> int
    decreases n,
{
    if n <= 1 {
        0
    } else {
        let rest = first_least(numbers, n - 1);
        if numbers[n - 1] < numbers[rest] {
            n - 1
        } else {
            rest
        }
    }
}

/// The party that the nearest neighbour gives: that of the first member of
/// `data` at the least of the `distances`; a democrat if no neighbour is
/// asked for or none is there.
pub open spec fn nearest_party(data: Seq<Legislator>, distances: Seq<i64>, k: usize) -> Party {
    if k == 0 || data.len() == 0 {
        Party::Democrat
    } else {
        data[first_least(distances, data.len() as int)].party
    }
}

/// Whether `distances` are distances that `distance` gives between the
/// members of `data`, in their order, and `query`.
pub open spec fn measured<F: Fn(&Legislator, &Legislator) -> i64>(
    distance: F,
    data: Seq<Legislator>,
    query: Legislator,
    distances: Seq<i64>,
) -> bool {
    &&& distances.len() == data.len()
    &&& forall|i: int|
        0 <= i < data.len() ==> call_ensures(distance, (&data[i], &query), #[trigger] distances[i])
}

/// A classifier that guesses the party of a legislator from the members of
/// the training data that are nearest by `distance`.
pub struct NearestNeighboursClassifier<'a, F> {
    distance: F,
    k: usize,
    data: &'a Vec<Legislator>,
}

impl<'a, F: Fn(&Legislator, &Legislator) -> i64> NearestNeighboursClassifier<'a, F> {
    /// The distance function.
    pub closed spec fn distance(&self) -> F {
        self.distance
    }

    /// The number of neighbours asked for.
    pub closed spec fn k(&self) -> usize {
        self.k
    }

    /// The training data.
    pub closed spec fn data(&self) -> Seq<Legislator> {
        self.data@
    }

    /// A classifier with its distance, the number of neighbours asked for
    /// and its training data.
    pub fn new(distance: F, k: usize, training_data: &'a Vec<Legislator>) -> (classifier: Self)
        ensures
            classifier.distance() == distance,
            classifier.k() == k,
            classifier.data() == training_data@,
    {
        NearestNeighboursClassifier { distance, k, data: training_data }
    }

    /// The party of the member of the training data that is nearest to
    /// `query`, the first of them if several are; a democrat if no neighbour
    /// is asked for or the training data is empty. The distance function is
    /// called once for each member, in their order.
    pub fn classify(&self, query: &Legislator) -> (party: Party)
        requires
            forall|i: int|
                0 <= i < self.data().len() ==> call_requires(
                    self.distance(),
                    (&#[trigger] self.data()[i], query),
                ),
        ensures
            exists|distances: Seq<i64>| #[trigger]
                measured(self.distance(), self.data(), *query, distances) && party
                    == nearest_party(self.data(), distances, self.k()),
    {
        let mut best_party = Party::Democrat;
        let mut best_distance: i64 = 0;
        let ghost mut distances: Seq<i64> = Seq::empty();
        let mut i: usize = 0;
        while i < self.data.len()
            invariant
                i <= self.data.len(),
                distances.len() == i,
                forall|j: int|
                    0 <= j < self.data().len() ==> call_requires(
                        self.distance(),
                        (&#[trigger] self.data()[j], query),
                    ),
                forall|j: int|
                    0 <= j < i ==> call_ensures(
                        self.distance(),
                        (&self.data()[j], query),
                        #[trigger] distances[j],
                    ),
                i > 0 ==> best_distance == distances[first_least(distances, i as int)]
                    && best_party == self.data()[first_least(distances, i as int)].party,
                i == 0 ==> best_party == Party::Democrat,
            decreases self.data.len() - i,
        {
            let member = &self.data[i];
            assert(member == &self.data()[i as int]);
            let d = (self.distance)(member, query);
            proof {
                let longer = distances.push(d);
                assert forall|j: int| 0 <= j < i + 1 implies call_ensures(
                    self.distance(),
                    (&self.data()[j], query),
                    #[trigger] longer[j],
                ) by {
                    if j < i {
                        assert(longer[j] == distances[j]);
                    }
                }
                lemma_first_least_prefix(distances, longer, i as int);
                distances = longer;
            }
            if i == 0 || d < best_distance {
                best_distance = d;
                best_party = member.party;
            }
            i += 1;
        }
        if self.k == 0 {
            best_party = Party::Democrat;
        }
        proof {
            lemma_first_least_prefix(distances, distances, self.data().len() as int);
            assert(measured(self.distance(), self.data(), *query, distances));
        }
        best_party
    }
}

/// The first of the least of some numbers depends on those numbers alone.
pub proof fn lemma_first_least_prefix(short: Seq<i64>, long: Seq<i64>, n: int)
    requires
        0 <= n <= short.len() <= long.len(),
        forall|j: int| 0 <= j < n ==> short[j] == long[j],
    ensures
        first_least(short, n) == first_least(long, n),
        n > 0 ==> 0 <= first_least(short, n) < n,
    decreases n,
{
    if n > 1 {
        lemma_first_least_prefix(short, long, n - 1);
    }
}

/// Whether the legislators at the positions below `n` are all of the party
/// of the first.
pub open spec fn same_party(data: Seq<&Legislator>, n: int) -> bool {
    forall|i: int| 0 <= i < n ==> (#[trigger] data[i]).party == data[0].party
}

/// The first legislator of the list if all are of one party.
pub fn homogeneous<'a>(data: &Vec<&'a Legislator>) -> (first: Option<&'a Legislator>)
    requires
        data.len() > 0,
    ensures
        first is Some <==> same_party(data@, data.len() as int),
        first matches Some(l) ==> l == data[0],
{
    let mut i: usize = 0;
    while i < data.len()
        invariant
            i <= data.len(),
            data.len() > 0,
            same_party(data@, i as int),
        decreases data.len() - i,
    {
        if data[i].party != data[0].party {
            return None;
        }
        i += 1;
    }
    Some(data[0])
}

/// The disorder of a split: the less, the more legislators lie in a part
/// that is of one party.
pub open spec fn disorder(yes: Seq<&Legislator>, no: Seq<&Legislator>) -> int {
    (if same_party(yes, yes.len() as int) {
        -yes.len()
    } else {
        0
    }) + (if same_party(no, no.len() as int) {
        -no.len()
    } else {
        0
    })
}

/// The disorder of a split into two parts that are not empty.
pub fn homogeneous_disorder(yes: Vec<&Legislator>, no: Vec<&Legislator>) -> (result: i64)
    requires
        yes.len() > 0,
        no.len() > 0,
        yes.len() + no.len() <= i64::MAX,
    ensures
        result == disorder(yes@, no@),
{
    let mut result: i64 = 0;
    if let Some(_) = homogeneous(&yes) {
        result -= yes.len() as i64;
    }
    if let Some(_) = homogeneous(&no) {
        result -= no.len() as i64;
    }
    result
}

/// The members among the first `n` whose vote on bill `vote` is `value`
/// (`matched`), or is not.
pub open spec fn split<'a>(
    legislators: Seq<&'a Legislator>,
    vote: int,
    value: Vote,
    matched: bool,
    n: int,
) -> Seq<&'a Legislator>
    decreases n,
{
    if n <= 0 {
        Seq::empty()
    } else if (legislators[n - 1].votes@[vote] == value) == matched {
        split(legislators, vote, value, matched, n - 1).push(legislators[n - 1])
    } else {
        split(legislators, vote, value, matched, n - 1)
    }
}

/// Whether every legislator has a vote on each of the first `bills` bills.
pub open spec fn all_voted(legislators: Seq<&Legislator>, bills: int) -> bool {
    forall|i: int| 0 <= i < legislators.len() ==> (#[trigger] legislators[i]).votes@.len() >= bills
}

/// Splits the legislators by their vote on one bill.
pub fn partition<'a>(legislators: &Vec<&'a Legislator>, vote: usize, value: Vote) -> (parts: (
    Vec<&'a Legislator>,
    Vec<&'a Legislator>,
))
    requires
        all_voted(legislators@, vote + 1),
    ensures
        parts.0@ == split(legislators@, vote as int, value, true, legislators.len() as int),
        parts.1@ == split(legislators@, vote as int, value, false, legislators.len() as int),
{
    let mut matched: Vec<&'a Legislator> = Vec::new();
    let mut unmatched: Vec<&'a Legislator> = Vec::new();
    let mut i: usize = 0;
    while i < legislators.len()
        invariant
            i <= legislators.len(),
            all_voted(legislators@, vote + 1),
            matched@ == split(legislators@, vote as int, value, true, i as int),
            unmatched@ == split(legislators@, vote as int, value, false, i as int),
        decreases legislators.len() - i,
    {
        let legislator = legislators[i];
        assert(legislators@[i as int].votes@.len() >= vote + 1);
        if legislator.votes[vote] == value {
            matched.push(legislator);
        } else {
            unmatched.push(legislator);
        }
        i += 1;
    }
    (matched, unmatched)
}

/// A question of a decision tree: the vote on one bill, with the subtrees
/// for the legislators who cast it and for those who did not.
pub struct DisorderNode {
    yes: Box<DisorderTree>,
    no: Box<DisorderTree>,
    vote_index: usize,
    vote_criterion: Vote,
}

/// A decision tree that tells the party of a legislator from the votes.
pub enum DisorderTree {
    Node(DisorderNode),
    Leaf(Party),
}

/// Whether all the records are as long as the first.
pub open spec fn same_length(legislators: Seq<&Legislator>) -> bool {
    forall|i: int|
        0 <= i < legislators.len() ==> (#[trigger] legislators[i]).votes@.len()
            == legislators[0].votes@.len()
}

/// Whether any two legislators of different parties differ in a vote.
pub open spec fn separable(legislators: Seq<&Legislator>) -> bool {
    forall|i: int, j: int|
        0 <= i < legislators.len() && 0 <= j < legislators.len() && (
        #[trigger] legislators[i]).party != (#[trigger] legislators[j]).party ==> exists|v: int|
            0 <= v < legislators[i].votes@.len() && v < legislators[j].votes@.len()
                && #[trigger] legislators[i].votes@[v] != legislators[j].votes@[v]
}

/// The third of the values of a vote, in the order in which they are tried.
pub fn tried_value(k: usize) -> (value: Vote)
    ensures
        value == (if k == 0 {
            Vote::Yea
        } else if k == 1 {
            Vote::Absent
        } else {
            Vote::Nay
        }),
{
    if k == 0 {
        Vote::Yea
    } else if k == 1 {
        Vote::Absent
    } else {
        Vote::Nay
    }
}

/// The two parts of a split hold as many legislators as were split.
pub proof fn lemma_split_len(legislators: Seq<&Legislator>, vote: int, value: Vote, n: int)
    requires
        0 <= n <= legislators.len(),
    ensures
        split(legislators, vote, value, true, n).len() + split(
            legislators,
            vote,
            value,
            false,
            n,
        ).len() == n,
    decreases n,
{
    if n > 0 {
        lemma_split_len(legislators, vote, value, n - 1);
    }
}

/// Every member of a part is one of the legislators and voted as the part says.
pub proof fn lemma_split_sound(
    legislators: Seq<&Legislator>,
    vote: int,
    value: Vote,
    matched: bool,
    n: int,
    k: int,
) -> (i: int)
    requires
        0 <= n <= legislators.len(),
        0 <= k < split(legislators, vote, value, matched, n).len(),
    ensures
        0 <= i < n,
        legislators[i] == split(legislators, vote, value, matched, n)[k],
        (legislators[i].votes@[vote] == value) == matched,
    decreases n,
{
    let shorter = split(legislators, vote, value, matched, n - 1);
    if k < shorter.len() {
        lemma_split_sound(legislators, vote, value, matched, n - 1, k)
    } else {
        n - 1
    }
}

/// Every legislator is a member of the part that its vote says.
pub proof fn lemma_split_complete(
    legislators: Seq<&Legislator>,
    vote: int,
    value: Vote,
    n: int,
    i: int,
) -> (k: int)
    requires
        0 <= i < n <= legislators.len(),
    ensures
        0 <= k < split(
            legislators,
            vote,
            value,
            legislators[i].votes@[vote] == value,
            n,
        ).len(),
        split(legislators, vote, value, legislators[i].votes@[vote] == value, n)[k]
            == legislators[i],
    decreases n,
{
    let matched = legislators[i].votes@[vote] == value;
    let shorter = split(legislators, vote, value, matched, n - 1);
    if i < n - 1 {
        let k = lemma_split_complete(legislators, vote, value, n - 1, i);
        assert(split(legislators, vote, value, matched, n)[k] == shorter[k]);
        k
    } else {
        shorter.len() as int
    }
}

/// A part of a split is as regular as the list that was split.
pub proof fn lemma_part_regular(
    whole: Seq<&Legislator>,
    vote: int,
    value: Vote,
    matched: bool,
)
    requires
        whole.len() > 0,
        same_length(whole),
        separable(whole),
    ensures
        same_length(split(whole, vote, value, matched, whole.len() as int)),
        separable(split(whole, vote, value, matched, whole.len() as int)),
{
    let part = split(whole, vote, value, matched, whole.len() as int);
    let n = whole.len() as int;
    assert forall|k: int| 0 <= k < part.len() implies (#[trigger] part[k]).votes@.len()
        == part[0].votes@.len() by {
        let i = lemma_split_sound(whole, vote, value, matched, n, k);
        let j = lemma_split_sound(whole, vote, value, matched, n, 0);
        assert(whole[i].votes@.len() == whole[0].votes@.len());
        assert(whole[j].votes@.len() == whole[0].votes@.len());
    }
    assert forall|a: int, b: int|
        0 <= a < part.len() && 0 <= b < part.len() && (#[trigger] part[a]).party != (
        #[trigger] part[b]).party implies exists|v: int|
        0 <= v < part[a].votes@.len() && v < part[b].votes@.len() && #[trigger] part[a].votes@[v]
            != part[b].votes@[v] by {
        let i = lemma_split_sound(whole, vote, value, matched, n, a);
        let j = lemma_split_sound(whole, vote, value, matched, n, b);
        assert(whole[i].party != whole[j].party);
    }
}

impl DisorderTree {
    /// The party that the tree tells for a record of votes.
    pub closed spec fn decide(self, votes: Seq<Vote>) -> Party
        decreases self,
    {
        match self {
            DisorderTree::Leaf(party) => party,
            DisorderTree::Node(node) => if votes[node.vote_index as int] == node.vote_criterion {
                node.yes.decide(votes)
            } else {
                node.no.decide(votes)
            },
        }
    }

    /// Whether every question of the tree is about one of the first
    /// `bills` bills.
    pub closed spec fn asks_below(self, bills: nat) -> bool
        decreases self,
    {
        match self {
            DisorderTree::Leaf(_) => true,
            DisorderTree::Node(node) => node.vote_index < bills && node.yes.asks_below(bills)
                && node.no.asks_below(bills),
        }
    }

    /// The party that the tree tells for a legislator.
    pub fn classify(&self, legislator: &Legislator) -> (party: Party)
        requires
            self.asks_below(legislator.votes@.len()),
        ensures
            party == self.decide(legislator.votes@),
        decreases self,
    {
        match self {
            DisorderTree::Leaf(party) => *party,
            DisorderTree::Node(node) => {
                if legislator.votes[node.vote_index] == node.vote_criterion {
                    node.yes.classify(legislator)
                } else {
                    node.no.classify(legislator)
                }
            },
        }
    }

    /// The party of a tree that is a single leaf; nothing for a tree that
    /// asks a question.
    pub fn leaf_party(&self) -> (party: Option<Party>)
        ensures
            party == (match *self {
                DisorderTree::Leaf(p) => Some(p),
                DisorderTree::Node(_) => None::<Party>,
            }),
            party matches Some(p) ==> forall|votes: Seq<Vote>| self.decide(votes) == p,
    {
        match self {
            DisorderTree::Leaf(party) => Some(*party),
            DisorderTree::Node(_) => None,
        }
    }

    /// Builds a tree that tells the party of each of the legislators from
    /// the votes: a leaf for legislators of one party; otherwise a question
    /// for the vote that splits them with the least disorder, the first of
    /// them by bill and value, over the trees of the two parts.
    pub fn new(legislators: Vec<&Legislator>) -> (tree: Box<Self>)
        requires
            0 < legislators.len() <= i64::MAX,
            same_length(legislators@),
            separable(legislators@),
        ensures
            forall|i: int|
                0 <= i < legislators.len() ==> tree.decide((#[trigger] legislators[i]).votes@)
                    == legislators[i].party,
            tree.asks_below(legislators[0].votes@.len()),
        decreases legislators.len(),
    {
        match homogeneous(&legislators) {
            Some(v) => {
                return Box::new(DisorderTree::Leaf(v.party));
            },
            None => {},
        }
        let ghost all = legislators@;
        let n = legislators.len();
        let bills = legislators[0].votes.len();
        let mut best_disorder = i64::MAX;
        let mut best_criterion = (0usize, Vote::Yea);
        let mut vote: usize = 0;
        while vote < bills
            invariant
                vote <= bills,
                all == legislators@,
                n == all.len(),
                0 < n <= i64::MAX,
                bills == all[0].votes@.len(),
                same_length(all),
                best_disorder < i64::MAX ==> best_criterion.0 < bills && splits(
                    all,
                    best_criterion.0 as int,
                    best_criterion.1,
                ),
                forall|v: int, k: int|
                    0 <= v < vote && 0 <= k < 3 && #[trigger] splits(all, v, value_of(k))
                        ==> best_disorder < i64::MAX,
            decreases bills - vote,
        {
            let mut k: usize = 0;
            while k < 3
                invariant
                    k <= 3,
                    vote < bills,
                    all == legislators@,
                    n == all.len(),
                    0 < n <= i64::MAX,
                    bills == all[0].votes@.len(),
                    same_length(all),
                    best_disorder < i64::MAX ==> best_criterion.0 < bills && splits(
                        all,
                        best_criterion.0 as int,
                        best_criterion.1,
                    ),
                    forall|v: int, j: int|
                        0 <= v < vote && 0 <= j < 3 && #[trigger] splits(all, v, value_of(j))
                            ==> best_disorder < i64::MAX,
                    forall|j: int|
                        0 <= j < k && #[trigger] splits(all, vote as int, value_of(j))
                            ==> best_disorder < i64::MAX,
                decreases 3 - k,
            {
                let vote_value = tried_value(k);
                assert(vote_value == value_of(k as int));
                assert(all_voted(all, vote + 1)) by {
                    assert forall|i: int| 0 <= i < all.len() implies (
                    #[trigger] all[i]).votes@.len() >= vote + 1 by {}
                }
                let (yes, no) = partition(&legislators, vote, vote_value);
                proof {
                    lemma_split_len(all, vote as int, vote_value, n as int);
                }
                if yes.len() == 0 || no.len() == 0 {
                } else {
                    let disorder = homogeneous_disorder(yes, no);
                    if disorder < best_disorder {
                        best_disorder = disorder;
                        best_criterion = (vote, vote_value);
                    }
                }
                k += 1;
            }
            vote += 1;
        }
        proof {
            lemma_some_split(all);
        }
        assert(all_voted(all, best_criterion.0 + 1)) by {
            assert forall|i: int| 0 <= i < all.len() implies (#[trigger] all[i]).votes@.len()
                >= best_criterion.0 + 1 by {}
        }
        let (yes, no) = partition(&legislators, best_criterion.0, best_criterion.1);
        proof {
            lemma_split_len(all, best_criterion.0 as int, best_criterion.1, n as int);
            lemma_part_regular(all, best_criterion.0 as int, best_criterion.1, true);
            lemma_part_regular(all, best_criterion.0 as int, best_criterion.1, false);
        }
        let ghost yes_part = yes@;
        let ghost no_part = no@;
        proof {
            let a = lemma_split_sound(
                all,
                best_criterion.0 as int,
                best_criterion.1,
                true,
                n as int,
                0,
            );
            let b = lemma_split_sound(
                all,
                best_criterion.0 as int,
                best_criterion.1,
                false,
                n as int,
                0,
            );
            assert(all[a].votes@.len() == all[0].votes@.len());
            assert(all[b].votes@.len() == all[0].votes@.len());
        }
        let yes_tree = DisorderTree::new(yes);
        let no_tree = DisorderTree::new(no);
        let tree = Box::new(
            DisorderTree::Node(
                DisorderNode {
                    yes: yes_tree,
                    no: no_tree,
                    vote_index: best_criterion.0,
                    vote_criterion: best_criterion.1,
                },
            ),
        );
        proof {
            assert forall|i: int| 0 <= i < all.len() implies tree.decide(
                (#[trigger] all[i]).votes@,
            ) == all[i].party by {
                let k = lemma_split_complete(
                    all,
                    best_criterion.0 as int,
                    best_criterion.1,
                    n as int,
                    i,
                );
                if all[i].votes@[best_criterion.0 as int] == best_criterion.1 {
                    assert(yes_tree.decide(yes_part[k].votes@) == yes_part[k].party);
                } else {
                    assert(no_tree.decide(no_part[k].votes@) == no_part[k].party);
                }
            }
        }
        tree
    }
}

/// The value that is tried `k`-th.
pub open spec fn value_of(k: int) -> Vote {
    if k == 0 {
        Vote::Yea
    } else if k == 1 {
        Vote::Absent
    } else {
        Vote::Nay
    }
}

/// Whether the vote `value` on bill `vote` splits the legislators into two
/// parts that are not empty.
pub open spec fn splits(legislators: Seq<&Legislator>, vote: int, value: Vote) -> bool {
    split(legislators, vote, value, true, legislators.len() as int).len() > 0 && split(
        legislators,
        vote,
        value,
        false,
        legislators.len() as int,
    ).len() > 0
}

/// Legislators of more than one party that are separable are split by some
/// vote.
pub proof fn lemma_some_split(legislators: Seq<&Legislator>)
    requires
        legislators.len() > 0,
        same_length(legislators),
        separable(legislators),
        !same_party(legislators, legislators.len() as int),
    ensures
        exists|v: int, k: int|
            0 <= v < legislators[0].votes@.len() && 0 <= k < 3 && #[trigger] splits(
                legislators,
                v,
                value_of(k),
            ),
{
    let i = choose|i: int|
        0 <= i < legislators.len() && (#[trigger] legislators[i]).party != legislators[0].party;
    assert(legislators[i].party != legislators[0].party);
    let v = choose|v: int|
        0 <= v < legislators[i].votes@.len() && v < legislators[0].votes@.len()
            && #[trigger] legislators[i].votes@[v] != legislators[0].votes@[v];
    let value = legislators[0].votes@[v];
    let k: int = match value {
        Vote::Yea => 0,
        Vote::Absent => 1,
        Vote::Nay => 2,
    };
    assert(value_of(k) == value);
    let n = legislators.len() as int;
    let a = lemma_split_complete(legislators, v, value, n, 0);
    let b = lemma_split_complete(legislators, v, value, n, i);
    assert(splits(legislators, v, value_of(k)));
}

/// Whether `party` is what the classifier built from `distance`, `k` and
/// `train` tells for `member`.
pub open spec fn guessed<F: Fn(&Legislator, &Legislator) -> i64>(
    distance: F,
    k: usize,
    train: Seq<Legislator>,
    member: Legislator,
    party: Party,
) -> bool {
    exists|distances: Seq<i64>| #[trigger]
        measured(distance, train, member, distances) && party == nearest_party(
            train,
            distances,
            k,
        )
}

/// The number of the first `n` members of `test` whose party is the guess
/// at the same position.
pub open spec fn hits(test: Seq<Legislator>, guesses: Seq<Party>, n: int) -> nat
    decreases n,
{
    if n <= 0 {
        0
    } else {
        hits(test, guesses, n - 1) + if test[n - 1].party == guesses[n - 1] {
            1nat
        } else {
            0nat
        }
    }
}

/// Whether `score` is the number of members of `test` whose party the
/// classifier built from `train` tells.
pub open spec fn scored<F: Fn(&Legislator, &Legislator) -> i64>(
    distance: F,
    k: usize,
    train: Seq<Legislator>,
    test: Seq<Legislator>,
    score: nat,
) -> bool {
    exists|guesses: Seq<Party>|
        {
            &&& guesses.len() == test.len()
            &&& forall|i: int|
                0 <= i < test.len() ==> guessed(distance, k, train, test[i], #[trigger] guesses[i])
            &&& score == #[trigger] hits(test, guesses, test.len() as int)
        }
}

/// Whether `distance` may be called on every member of `train` beside every
/// member of `test`.
pub open spec fn comparable<F: Fn(&Legislator, &Legislator) -> i64>(
    distance: F,
    train: Seq<Legislator>,
    test: Seq<Legislator>,
) -> bool {
    forall|i: int, j: int|
        0 <= i < train.len() && 0 <= j < test.len() ==> call_requires(
            distance,
            (&#[trigger] train[i], &#[trigger] test[j]),
        )
}

/// The number of members of `test` whose party a classifier tells that was
/// trained on `train`.
pub fn count_correct<F: Fn(&Legislator, &Legislator) -> i64>(
    distance: F,
    k: usize,
    test: &Vec<Legislator>,
    train: &Vec<Legislator>,
) -> (score: usize)
    requires
        comparable(distance, train@, test@),
    ensures
        scored(distance, k, train@, test@, score as nat),
        score <= test.len(),
{
    let classifier = NearestNeighboursClassifier::new(distance, k, train);
    let mut score: usize = 0;
    let ghost mut guesses: Seq<Party> = Seq::empty();
    let mut i: usize = 0;
    while i < test.len()
        invariant
            i <= test.len(),
            score <= i,
            classifier.distance() == distance,
            classifier.k() == k,
            classifier.data() == train@,
            comparable(distance, train@, test@),
            guesses.len() == i,
            forall|j: int|
                0 <= j < i ==> guessed(distance, k, train@, test@[j], #[trigger] guesses[j]),
            score == hits(test@, guesses, i as int),
        decreases test.len() - i,
    {
        let leg = &test[i];
        assert forall|t: int| 0 <= t < classifier.data().len() implies call_requires(
            classifier.distance(),
            (&#[trigger] classifier.data()[t], leg),
        ) by {
            assert(call_requires(distance, (&train@[t], &test@[i as int])));
        }
        let predicted = classifier.classify(leg);
        proof {
            let longer = guesses.push(predicted);
            assert forall|j: int| 0 <= j < i + 1 implies guessed(
                distance,
                k,
                train@,
                test@[j],
                #[trigger] longer[j],
            ) by {
                if j < i {
                    assert(longer[j] == guesses[j]);
                }
            }
            lemma_hits_prefix(test@, guesses, longer, i as int);
            guesses = longer;
        }
        if leg.party == predicted {
            score += 1;
        }
        i += 1;
    }
    score
}

/// The party that a classifier trained on `train` tells for each member
/// of `test`.
pub fn predictions<F: Fn(&Legislator, &Legislator) -> i64>(
    distance: F,
    k: usize,
    test: &Vec<Legislator>,
    train: &Vec<Legislator>,
) -> (guesses: Vec<Party>)
    requires
        comparable(distance, train@, test@),
    ensures
        guesses.len() == test.len(),
        forall|i: int|
            0 <= i < test.len() ==> guessed(distance, k, train@, test@[i], #[trigger] guesses[i]),
{
    let classifier = NearestNeighboursClassifier::new(distance, k, train);
    let mut guesses: Vec<Party> = Vec::new();
    let mut i: usize = 0;
    while i < test.len()
        invariant
            i <= test.len(),
            classifier.distance() == distance,
            classifier.k() == k,
            classifier.data() == train@,
            comparable(distance, train@, test@),
            guesses.len() == i,
            forall|j: int|
                0 <= j < i ==> guessed(distance, k, train@, test@[j], #[trigger] guesses[j]),
        decreases test.len() - i,
    {
        let leg = &test[i];
        assert forall|t: int| 0 <= t < classifier.data().len() implies call_requires(
            classifier.distance(),
            (&#[trigger] classifier.data()[t], leg),
        ) by {
            assert(call_requires(distance, (&train@[t], &test@[i as int])));
        }
        let predicted = classifier.classify(leg);
        guesses.push(predicted);
        i += 1;
    }
    guesses
}

/// The hits among the first guesses depend on those guesses alone.
pub proof fn lemma_hits_prefix(test: Seq<Legislator>, short: Seq<Party>, long: Seq<Party>, n: int)
    requires
        0 <= n <= short.len() <= long.len(),
        forall|j: int| 0 <= j < n ==> short[j] == long[j],
    ensures
        hits(test, short, n) == hits(test, long, n),
    decreases n,
{
    if n > 0 {
        lemma_hits_prefix(test, short, long, n - 1);
    }
}

/// Cross checks a classifier on two groups: each group is classified by a
/// classifier trained on the other, and the members whose party it tells
/// are counted.
pub fn evaluate<F: Fn(&Legislator, &Legislator) -> i64 + Copy>(
    distance: F,
    k: usize,
    group1: &Vec<Legislator>,
    group2: &Vec<Legislator>,
) -> (score: usize)
    requires
        comparable(distance, group1@, group2@),
        comparable(distance, group2@, group1@),
        group1.len() + group2.len() <= usize::MAX,
    ensures
        exists|first: nat, second: nat|
            #![trigger
                scored(distance, k, group2@, group1@, first),
                scored(distance, k, group1@, group2@, second)
            ]
            scored(distance, k, group2@, group1@, first) && scored(
                distance,
                k,
                group1@,
                group2@,
                second,
            ) && score == first + second,
{
    let first = count_correct(distance, k, group1, group2);
    let second = count_correct(distance, k, group2, group1);
    first + second
}

/// The field of a line at position `index`, counting the fields between
/// commas from 0; empty if the line has fewer fields.
pub open spec fn field_of(line: Seq<char>, index: nat) -> Seq<char>
    decreases line.len(),
{
    if line.len() == 0 {
        Seq::empty()
    } else if line[0] == ',' {
        if index == 0 {
            Seq::empty()
        } else {
            field_of(line.drop_first(), (index - 1) as nat)
        }
    } else if index == 0 {
        seq![line[0]] + field_of(line.drop_first(), 0)
    } else {
        field_of(line.drop_first(), index)
    }
}

/// The field of a line at position `index`.
pub fn field(line: &Vec<char>, index: usize) -> (text: String)
    ensures
        text@ == field_of(line@, index as nat),
{
    let mut start: usize = 0;
    let mut skipped: usize = 0;
    assert(line@.subrange(0, line.len() as int) =~= line@);
    // Pass the fields before the one asked for.
    while start < line.len() && skipped < index
        invariant
            start <= line.len(),
            skipped <= index,
            field_of(line@, index as nat) == field_of(
                line@.subrange(start as int, line.len() as int),
                (index - skipped) as nat,
            ),
        decreases line.len() - start,
    {
        let ghost rest = line@.subrange(start as int, line.len() as int);
        assert(rest.drop_first() =~= line@.subrange(start + 1, line.len() as int));
        if line[start] == ',' {
            skipped += 1;
        }
        start += 1;
    }
    if skipped < index {
        assert(line@.subrange(start as int, line.len() as int).len() == 0);
        return String::new();
    }
    let mut end: usize = start;
    assert(line@.subrange(start as int, line.len() as int) =~= line@.subrange(
        start as int,
        end as int,
    ) + line@.subrange(end as int, line.len() as int));
    while end < line.len() && line[end] != ','
        invariant
            start <= end <= line.len(),
            field_of(line@, index as nat) == line@.subrange(start as int, end as int) + field_of(
                line@.subrange(end as int, line.len() as int),
                0,
            ),
        decreases line.len() - end,
    {
        let ghost rest = line@.subrange(end as int, line.len() as int);
        assert(rest.drop_first() =~= line@.subrange(end + 1, line.len() as int));
        assert(line@.subrange(start as int, end + 1) =~= line@.subrange(start as int, end as int)
            + seq![line@[end as int]]);
        assert(line@.subrange(start as int, end as int) + (seq![line@[end as int]] + field_of(
            rest.drop_first(),
            0,
        )) =~= line@.subrange(start as int, end + 1) + field_of(rest.drop_first(), 0));
        end += 1;
    }
    proof {
        let rest = line@.subrange(end as int, line.len() as int);
        assert(field_of(rest, 0) =~= Seq::<char>::empty());
        assert(line@.subrange(start as int, end as int) + Seq::<char>::empty() =~= line@.subrange(
            start as int,
            end as int,
        ));
    }
    string_of(line, start, end)
}

/// The bill of a line of the table of bills: its code is the fourth field
/// and its description the seventh.
pub fn parse_bill(line: &Vec<char>) -> (bill: Bill)
    ensures
        bill.code@ == field_of(line@, 3),
        bill.description@ == field_of(line@, 6),
{
    Bill { code: field(line, 3), description: field(line, 6) }
}

/// The bills of a table: one for every line after the first.
pub fn parse_bills(data: &str) -> (bills: Vec<Bill>)
    ensures
        bills.len() == (if lines_of(data@).len() == 0 {
            0
        } else {
            lines_of(data@).len() - 1
        }),
        forall|i: int|
            0 <= i < bills.len() ==> (#[trigger] bills[i]).code@ == field_of(
                lines_of(data@)[i + 1],
                3,
            ) && bills[i].description@ == field_of(lines_of(data@)[i + 1], 6),
{
    let text = chars_of(data);
    let all = lines(&text);
    let mut bills: Vec<Bill> = Vec::new();
    let mut i: usize = 1;
    while i < all.len()
        invariant
            1 <= i,
            i <= all.len() || i == 1,
            rows(all@) == lines_of(data@),
            rows(all@).len() == all.len(),
            i <= all.len() ==> bills.len() == i - 1,
            i > all.len() ==> bills.len() == 0,
            forall|k: int|
                0 <= k < bills.len() ==> (#[trigger] bills[k]).code@ == field_of(
                    lines_of(data@)[k + 1],
                    3,
                ) && bills[k].description@ == field_of(lines_of(data@)[k + 1], 6),
        decreases all.len() - i,
    {
        assert(rows(all@)[i as int] == all@[i as int]@);
        bills.push(parse_bill(&all[i]));
        i += 1;
    }
    bills
}

/// Whether a line of the roll-call file can be read: it reaches the column
/// where the votes begin, and up to there every character fills one byte,
/// so that columns count characters and bytes alike.
pub open spec fn readable(line: Seq<char>) -> bool {
    line.len() >= 36 && forall|i: int| 0 <= i < 36 ==> (#[trigger] line[i]) as u32 <= 127
}

/// Decides `readable`.
pub fn is_readable(line: &Vec<char>) -> (ok: bool)
    ensures
        ok == readable(line@),
{
    if line.len() < 36 {
        return false;
    }
    let mut i: usize = 0;
    while i < 36
        invariant
            i <= 36,
            line.len() >= 36,
            forall|k: int| 0 <= k < i ==> (#[trigger] line@[k]) as u32 <= 127,
        decreases 36 - i,
    {
        if line[i] as u32 > 127 {
            return false;
        }
        i += 1;
    }
    true
}

/// The legislator of a line of the roll-call file: the party code stands in
/// the columns 20 to 22, the name in the columns 25 to 35, and the votes
/// follow from column 36.
pub fn parse_line(line: &Vec<char>) -> (legislator: Legislator)
    requires
        readable(line@),
    ensures
        legislator.name@ == line@.subrange(25, 36),
        legislator.party == party_of(line@.subrange(20, 23)),
        legislator.votes@ == line@.subrange(36, line@.len() as int).map_values(
            |code: char| vote_of(code),
        ),
{
    let name = string_of(line, 25, 36);
    let code = string_of(line, 20, 23);
    let mut votes: Vec<Vote> = Vec::new();
    let mut i: usize = 36;
    let ghost codes = line@.subrange(36, line@.len() as int);
    assert(votes@ =~= codes.take(0).map_values(|code: char| vote_of(code)));
    while i < line.len()
        invariant
            36 <= i <= line.len(),
            codes == line@.subrange(36, line@.len() as int),
            votes@ == codes.take(i - 36).map_values(|code: char| vote_of(code)),
        decreases line.len() - i,
    {
        votes.push(Vote::new(line[i]));
        assert(votes@ =~= codes.take(i + 1 - 36).map_values(|code: char| vote_of(code)));
        i += 1;
    }
    assert(codes.take(codes.len() as int) =~= codes);
    Legislator { name, party: Party::new(code.as_str()), votes }
}

/// The legislators of a roll-call file, one for every line.
pub fn parse(data: &str) -> (legislators: Vec<Legislator>)
    requires
        forall|i: int| 0 <= i < lines_of(data@).len() ==> readable(#[trigger] lines_of(data@)[i]),
    ensures
        legislators.len() == lines_of(data@).len(),
        forall|i: int|
            0 <= i < legislators.len() ==> {
                let line = lines_of(data@)[i];
                &&& (#[trigger] legislators[i]).name@ == line.subrange(25, 36)
                &&& legislators[i].party == party_of(line.subrange(20, 23))
                &&& legislators[i].votes@ == line.subrange(36, line.len() as int).map_values(
                    |code: char| vote_of(code),
                )
            },
{
    let text = chars_of(data);
    let all = lines(&text);
    let mut legislators: Vec<Legislator> = Vec::new();
    let mut i: usize = 0;
    while i < all.len()
        invariant
            i <= all.len(),
            rows(all@) == lines_of(data@),
            forall|k: int|
                0 <= k < lines_of(data@).len() ==> readable(#[trigger] lines_of(data@)[k]),
            legislators.len() == i,
            forall|k: int|
                0 <= k < i ==> {
                    let line = lines_of(data@)[k];
                    &&& (#[trigger] legislators[k]).name@ == line.subrange(25, 36)
                    &&& legislators[k].party == party_of(line.subrange(20, 23))
                    &&& legislators[k].votes@ == line.subrange(36, line.len() as int).map_values(
                        |code: char| vote_of(code),
                    )
                },
        decreases all.len() - i,
    {
        assert(rows(all@)[i as int] == all@[i as int]@);
        assert(readable(lines_of(data@)[i as int]));
        legislators.push(parse_line(&all[i]));
        i += 1;
    }
    legislators
}

/// Whether every line of a roll-call file can be read.
pub fn can_parse(data: &str) -> (ok: bool)
    ensures
        ok == forall|i: int|
            0 <= i < lines_of(data@).len() ==> readable(#[trigger] lines_of(data@)[i]),
{
    let text = chars_of(data);
    let all = lines(&text);
    let mut i: usize = 0;
    while i < all.len()
        invariant
            i <= all.len(),
            rows(all@) == lines_of(data@),
            forall|k: int| 0 <= k < i ==> readable(#[trigger] lines_of(data@)[k]),
        decreases all.len() - i,
    {
        assert(rows(all@)[i as int] == all@[i as int]@);
        if !is_readable(&all[i]) {
            return false;
        }
        i += 1;
    }
    true
}

} // verus!
