//! Names of the labels that mark the code of brackets.
//!
//! The label of a bracket is made of the bracket's character, the depth of
//! the loop and the number of the loop among those of its depth, as in
//! `[2_5`. Both numbers are written in decimal digits.
use crate::brackets::{
    balanced, depth, is_bracket_word, is_match_start, lemma_balanced_has_match_start,
    lemma_depth_bound, match_start,
};
use vstd::prelude::*;
use vstd::string::StringExecFns;

verus! {

/// The decimal digit for a number below ten.
pub open spec fn digit(d: nat) -> char {
    if d == 0 {
        '0'
    } else if d == 1 {
        '1'
    } else if d == 2 {
        '2'
    } else if d == 3 {
        '3'
    } else if d == 4 {
        '4'
    } else if d == 5 {
        '5'
    } else if d == 6 {
        '6'
    } else if d == 7 {
        '7'
    } else if d == 8 {
        '8'
    } else {
        '9'
    }
}

/// The number that a decimal digit stands for.
pub open spec fn digit_value(c: char) -> nat {
    if c == '0' {
        0
    } else if c == '1' {
        1
    } else if c == '2' {
        2
    } else if c == '3' {
        3
    } else if c == '4' {
        4
    } else if c == '5' {
        5
    } else if c == '6' {
        6
    } else if c == '7' {
        7
    } else if c == '8' {
        8
    } else {
        9
    }
}

/// Whether a character is a decimal digit.
pub open spec fn is_digit(c: char) -> bool {
    c == '0' || c == '1' || c == '2' || c == '3' || c == '4' || c == '5' || c == '6' || c == '7'
        || c == '8' || c == '9'
}

/// A number in decimal digits, without leading zeros.
pub open spec fn decimal(n: nat) -> Seq<char>
    decreases n,
{
    if n < 10 {
        seq![digit(n)]
    } else {
        decimal(n / 10).push(digit(n % 10))
    }
}

/// The number that a sequence of decimal digits stands for.
pub open spec fn decimal_value(s: Seq<char>) -> nat
    decreases s.len(),
{
    if s.len() == 0 {
        0
    } else {
        decimal_value(s.drop_last()) * 10 + digit_value(s.last())
    }
}

/// The name of the label of a bracket.
pub open spec fn label_text(bracket: char, depth: nat, id: nat) -> Seq<char> {
    seq![bracket] + decimal(depth) + seq!['_'] + decimal(id)
}

/// A number in decimal digits is made of digits, of one at least, and
/// stands for the number.
pub proof fn lemma_decimal(n: nat)
    ensures
        decimal(n).len() >= 1,
        forall|i: int| 0 <= i < decimal(n).len() ==> is_digit(#[trigger] decimal(n)[i]),
        decimal_value(decimal(n)) == n,
    decreases n,
{
    if n < 10 {
        assert(decimal(n).drop_last() =~= Seq::<char>::empty());
        assert(decimal_value(decimal(n).drop_last()) == 0);
    } else {
        lemma_decimal(n / 10);
        let front = decimal(n / 10);
        assert(decimal(n).drop_last() =~= front);
        assert forall|i: int| 0 <= i < decimal(n).len() implies is_digit(
            #[trigger] decimal(n)[i],
        ) by {
            if i < front.len() {
                assert(decimal(n)[i] == front[i]);
            }
        }
    }
}

/// Different labels have different names.
pub proof fn lemma_label_text_injective(
    bracket1: char,
    depth1: nat,
    id1: nat,
    bracket2: char,
    depth2: nat,
    id2: nat,
)
    requires
        label_text(bracket1, depth1, id1) == label_text(bracket2, depth2, id2),
    ensures
        bracket1 == bracket2,
        depth1 == depth2,
        id1 == id2,
{
    let t1 = label_text(bracket1, depth1, id1);
    let t2 = label_text(bracket2, depth2, id2);
    lemma_decimal(depth1);
    lemma_decimal(depth2);
    lemma_decimal(id1);
    lemma_decimal(id2);
    let d1 = decimal(depth1);
    let d2 = decimal(depth2);
    let n1 = d1.len() as int;
    let n2 = d2.len() as int;
    assert(t1[0] == bracket1);
    assert(t2[0] == bracket2);
    // the first underscore stands behind the digits of the depth
    assert(t1[1 + n1] == '_');
    assert(t2[1 + n2] == '_');
    if n1 < n2 {
        assert(t2[1 + n1] == d2[n1]);
        assert(is_digit(d2[n1]));
    }
    if n2 < n1 {
        assert(t1[1 + n2] == d1[n2]);
        assert(is_digit(d1[n2]));
    }
    assert(n1 == n2);
    assert(d1 =~= d2) by {
        assert forall|i: int| 0 <= i < d1.len() implies d1[i] == d2[i] by {
            assert(t1[1 + i] == d1[i]);
            assert(t2[1 + i] == d2[i]);
        }
    }
    let e1 = decimal(id1);
    let e2 = decimal(id2);
    assert(t1.len() == 2 + d1.len() + e1.len());
    assert(t2.len() == 2 + d2.len() + e2.len());
    assert(e1 =~= e2) by {
        assert forall|i: int| 0 <= i < e1.len() implies e1[i] == e2[i] by {
            assert(t1[2 + n1 + i] == e1[i]);
            assert(t2[2 + n2 + i] == e2[i]);
        }
    }
}

/// The decimal digit for a number below ten, as a string.
fn digit_str(d: usize) -> (s: &'static str)
    requires
        d < 10,
    ensures
        s@ == seq![digit(d as nat)],
{
    proof {
        reveal_strlit("0");
        reveal_strlit("1");
        reveal_strlit("2");
        reveal_strlit("3");
        reveal_strlit("4");
        reveal_strlit("5");
        reveal_strlit("6");
        reveal_strlit("7");
        reveal_strlit("8");
        reveal_strlit("9");
    }
    let s = if d == 0 {
        "0"
    } else if d == 1 {
        "1"
    } else if d == 2 {
        "2"
    } else if d == 3 {
        "3"
    } else if d == 4 {
        "4"
    } else if d == 5 {
        "5"
    } else if d == 6 {
        "6"
    } else if d == 7 {
        "7"
    } else if d == 8 {
        "8"
    } else {
        "9"
    };
    assert(s@ =~= seq![digit(d as nat)]);
    s
}

/// A number in decimal digits.
pub fn decimal_string(n: usize) -> (s: String)
    ensures
        s@ == decimal(n as nat),
    decreases n,
{
    if n < 10 {
        String::from_str(digit_str(n))
    } else {
        let mut s = decimal_string(n / 10);
        s.append(digit_str(n % 10));
        assert(s@ =~= decimal(n as nat));
        s
    }
}

/// The name of the label of the opening bracket (`opening`) or of the
/// closing bracket of the loop number `id` of depth `depth`.
pub fn label_name(opening: bool, depth: usize, id: usize) -> (name: String)
    ensures
        name@ == label_text(
            if opening {
                '['
            } else {
                ']'
            },
            depth as nat,
            id as nat,
        ),
{
    proof {
        reveal_strlit("[");
        reveal_strlit("]");
        reveal_strlit("_");
    }
    let mut name = String::from_str(
        if opening {
            "["
        } else {
            "]"
        },
    );
    let depth_digits = decimal_string(depth);
    name.append(depth_digits.as_str());
    name.append("_");
    let id_digits = decimal_string(id);
    name.append(id_digits.as_str());
    assert(name@ =~= label_text(
        if opening {
            '['
        } else {
            ']'
        },
        depth as nat,
        id as nat,
    ));
    name
}


/// The number of opening brackets among the first `k` elements that open a
/// loop of depth `level`.
pub open spec fn opened_at(b: Seq<int>, k: int, level: int) -> nat
    decreases k,
{
    if k <= 0 {
        0
    } else {
        opened_at(b, k - 1, level) + if b[k - 1] == 1 && depth(b, k - 1) + 1 == level {
            1nat
        } else {
            0nat
        }
    }
}

/// The depth of the loop that the opening bracket at `j` opens.
pub open spec fn loop_depth(b: Seq<int>, j: int) -> nat {
    (depth(b, j) + 1) as nat
}

/// The number of the loop that the opening bracket at `j` opens among the
/// loops of its depth, counted from one.
pub open spec fn loop_id(b: Seq<int>, j: int) -> nat {
    opened_at(b, j + 1, depth(b, j) + 1)
}

/// The name of the label at the code of the opening bracket at `j`.
pub open spec fn open_label(b: Seq<int>, j: int) -> Seq<char> {
    label_text('[', loop_depth(b, j), loop_id(b, j))
}

/// The name of the label behind the code of the closing bracket that
/// belongs to the opening bracket at `j`.
pub open spec fn close_label(b: Seq<int>, j: int) -> Seq<char> {
    label_text(']', loop_depth(b, j), loop_id(b, j))
}

/// The count of the loops of a depth does not fall, and is no more than the
/// number of elements counted.
pub proof fn lemma_opened_at_grows(b: Seq<int>, i: int, k: int, level: int)
    requires
        0 <= i <= k,
    ensures
        opened_at(b, i, level) <= opened_at(b, k, level) <= k,
    decreases k,
{
    if i < k {
        lemma_opened_at_grows(b, i, k - 1, level);
    } else if k > 0 {
        lemma_opened_at_grows(b, i - 1, k - 1, level);
    }
}

/// Where the depth stays at `level` or above, no loop of depth `level` is
/// opened.
pub proof fn lemma_none_opened_above(b: Seq<int>, i: int, k: int, level: int)
    requires
        0 <= i <= k,
        forall|m: int| i <= m < k ==> #[trigger] depth(b, m) >= level,
    ensures
        opened_at(b, k, level) == opened_at(b, i, level),
    decreases k,
{
    if i < k {
        lemma_none_opened_above(b, i, k - 1, level);
    }
}

/// Between an opening bracket and its closing bracket the depth stays
/// above the depth in front of the opening bracket.
pub proof fn lemma_inside_stays_above(b: Seq<int>, o: int, c: int, m: int)
    requires
        is_bracket_word(b),
        is_match_start(b, c, o),
        b[o] == 1,
        o < m <= c,
    ensures
        depth(b, m) > depth(b, o),
    decreases m,
{
    assert(depth(b, m) == depth(b, m - 1) + b[m - 1]);
    if m > o + 1 {
        lemma_inside_stays_above(b, o, c, m - 1);
    }
}

/// Different opening brackets open loops with different labels.
pub proof fn lemma_loops_differ(b: Seq<int>, i: int, j: int)
    requires
        balanced(b),
        0 <= i < j < b.len(),
        b[i] == 1,
        b[j] == 1,
    ensures
        loop_depth(b, i) != loop_depth(b, j) || loop_id(b, i) < loop_id(b, j),
{
    if depth(b, i) == depth(b, j) {
        let level = depth(b, j) + 1;
        lemma_opened_at_grows(b, i + 1, j, level);
        assert(opened_at(b, j + 1, level) == opened_at(b, j, level) + 1);
    }
}

/// Different labels of brackets have different names.
pub proof fn lemma_labels_differ(b: Seq<int>, i: int, j: int)
    requires
        balanced(b),
        0 <= i < b.len(),
        0 <= j < b.len(),
        b[i] == 1,
        b[j] == 1,
    ensures
        open_label(b, i) != close_label(b, j),
        i != j ==> open_label(b, i) != open_label(b, j) && close_label(b, i) != close_label(b, j),
{
    if open_label(b, i) == close_label(b, j) {
        lemma_label_text_injective(
            '[',
            loop_depth(b, i),
            loop_id(b, i),
            ']',
            loop_depth(b, j),
            loop_id(b, j),
        );
    }
    if i != j {
        if i < j {
            lemma_loops_differ(b, i, j);
        } else {
            lemma_loops_differ(b, j, i);
        }
        if open_label(b, i) == open_label(b, j) {
            lemma_label_text_injective(
                '[',
                loop_depth(b, i),
                loop_id(b, i),
                '[',
                loop_depth(b, j),
                loop_id(b, j),
            );
        }
        if close_label(b, i) == close_label(b, j) {
            lemma_label_text_injective(
                ']',
                loop_depth(b, i),
                loop_id(b, i),
                ']',
                loop_depth(b, j),
                loop_id(b, j),
            );
        }
    }
}

/// The depth of nesting and, for each depth, the number of loops of that
/// depth that were opened so far.
pub struct Nesting {
    pub depth: usize,
    pub ids: Vec<usize>,
}

impl Nesting {
    /// The counters are those of the first `k` elements of `b`.
    pub open spec fn tracks(&self, b: Seq<int>, k: int) -> bool {
        &&& self.depth == depth(b, k)
        &&& self.depth < self.ids@.len()
        &&& forall|l: int| 1 <= l < self.ids@.len() ==> #[trigger] self.ids@[l] == opened_at(b, k, l)
        &&& forall|l: int| self.ids@.len() <= l ==> #[trigger] opened_at(b, k, l) == 0
    }

    /// The counters in front of the first element.
    pub fn new() -> (nesting: Self)
        ensures
            nesting.depth == 0,
            nesting.ids@ == seq![0usize],
    {
        let mut ids: Vec<usize> = Vec::new();
        ids.push(0);
        Nesting { depth: 0, ids }
    }

    /// The counters in front of the first element track every sequence.
    pub proof fn lemma_new_tracks(&self, b: Seq<int>)
        requires
            self.depth == 0,
            self.ids@ == seq![0usize],
        ensures
            self.tracks(b, 0),
    {
    }

    /// Counts the loop that the opening bracket at `k` opens, and gives its
    /// depth and its number.
    pub(crate) fn enter(&mut self, Ghost(b): Ghost<Seq<int>>, Ghost(k): Ghost<int>) -> (key: (
        usize,
        usize,
    ))
        requires
            old(self).tracks(b, k),
            is_bracket_word(b),
            0 <= k < b.len(),
            b.len() <= usize::MAX,
            b[k] == 1,
        ensures
            final(self).tracks(b, k + 1),
            key.0 == loop_depth(b, k),
            key.1 == loop_id(b, k),
    {
        proof {
            assert(depth(b, k + 1) == depth(b, k) + b[k]);
            lemma_opened_at_grows(b, k, k, depth(b, k) + 1);
            lemma_depth_bound(b, k);
        }
        let ghost before = self.ids@;
        self.depth += 1;
        if self.depth == self.ids.len() {
            self.ids.push(0);
        }
        let id: usize = self.ids[self.depth] + 1;
        self.ids[self.depth] = id;
        proof {
            assert forall|l: int| 1 <= l < self.ids@.len() implies #[trigger] self.ids@[l]
                == opened_at(b, k + 1, l) by {
                if l < before.len() {
                    assert(before[l] == opened_at(b, k, l));
                } else {
                    assert(opened_at(b, k, l) == 0);
                }
            }
            assert forall|l: int| self.ids@.len() <= l implies #[trigger] opened_at(b, k + 1, l)
                == 0 by {
                assert(opened_at(b, k, l) == 0);
            }
        }
        (self.depth, id)
    }

    /// Leaves the loop that the closing bracket at `k` closes, and gives
    /// the depth and the number of that loop.
    pub(crate) fn leave(&mut self, Ghost(b): Ghost<Seq<int>>, Ghost(k): Ghost<int>) -> (key: (
        usize,
        usize,
    ))
        requires
            old(self).tracks(b, k),
            is_bracket_word(b),
            balanced(b),
            0 <= k < b.len(),
            b[k] == -1,
        ensures
            final(self).tracks(b, k + 1),
            key.0 == loop_depth(b, match_start(b, k)),
            key.1 == loop_id(b, match_start(b, k)),
    {
        proof {
            assert(depth(b, k + 1) == depth(b, k) + b[k]);
            lemma_balanced_has_match_start(b, k);
            let o = match_start(b, k);
            assert(depth(b, o + 1) == depth(b, o) + b[o]);
            assert forall|m: int| o + 1 <= m < k implies #[trigger] depth(b, m) >= depth(b, k) by {
                lemma_inside_stays_above(b, o, k, m);
            }
            lemma_none_opened_above(b, o + 1, k, depth(b, k));
            assert(self.ids@[self.depth as int] == opened_at(b, k, self.depth as int));
            assert forall|l: int| 1 <= l < self.ids@.len() implies #[trigger] self.ids@[l]
                == opened_at(b, k + 1, l) by {
                assert(self.ids@[l] == opened_at(b, k, l));
            }
            assert forall|l: int| self.ids@.len() <= l implies #[trigger] opened_at(b, k + 1, l)
                == 0 by {
                assert(opened_at(b, k, l) == 0);
            }
        }
        let key = (self.depth, self.ids[self.depth]);
        self.depth -= 1;
        key
    }

    /// An element that is no bracket changes no counter.
    pub proof fn lemma_pass(&self, b: Seq<int>, k: int)
        requires
            self.tracks(b, k),
            0 <= k < b.len(),
            b[k] == 0,
        ensures
            self.tracks(b, k + 1),
    {
        assert(depth(b, k + 1) == depth(b, k) + b[k]);
        assert forall|l: int| 1 <= l < self.ids@.len() implies #[trigger] self.ids@[l]
            == opened_at(b, k + 1, l) by {
            assert(self.ids@[l] == opened_at(b, k, l));
        }
        assert forall|l: int| self.ids@.len() <= l implies #[trigger] opened_at(b, k + 1, l)
            == 0 by {
            assert(opened_at(b, k, l) == 0);
        }
    }
}

} // verus!
