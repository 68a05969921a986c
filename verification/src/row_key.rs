//! The two ways in which a row of the grid is given its list key.
//!
//! `good_key` spells the number of cells in the row before the dimensions
//! and the row index; `bad_key` leaves that number out. Within one snapshot
//! both tell all rows apart. Across snapshots only the first tells a row from
//! a row of another length that stands at the same index of a grid with the
//! same dimensions.

use crate::decimal::{
    decimal, digit, is_digit, lemma_decimal_digits, lemma_decimal_injective, lemma_digit_injective,
    push_decimal,
};
use vstd::prelude::*;
use vstd::string::StringExecFns;

verus! {

/// `head` and `tail` with a dash between them.
pub open spec fn joined(head: Seq<char>, tail: Seq<char>) -> Seq<char> {
    head + seq!['-'] + tail
}

/// The key text `width-height-index`.
pub open spec fn bad_key_text(width: nat, height: nat, index: nat) -> Seq<char> {
    joined(decimal(width), joined(decimal(height), decimal(index)))
}

/// The key text `len-width-height-index`.
pub open spec fn good_key_text(len: nat, width: nat, height: nat, index: nat) -> Seq<char> {
    joined(decimal(len), bad_key_text(width, height, index))
}

/// No decimal notation holds a dash.
pub proof fn lemma_decimal_has_no_dash(n: nat)
    ensures
        forall|i: int| 0 <= i < decimal(n).len() ==> #[trigger] decimal(n)[i] != '-',
{
    lemma_decimal_digits(n);
    assert forall|i: int| 0 <= i < decimal(n).len() implies #[trigger] decimal(n)[i] != '-' by {
        assert(is_digit(decimal(n)[i]));
        let d = choose|d: nat| d < 10 && decimal(n)[i] == #[trigger] digit(d);
        lemma_digit_injective(d, d);
    }
}

/// A joined text falls apart at its first dash in one way only.
pub proof fn lemma_joined_injective(a: Seq<char>, x: Seq<char>, b: Seq<char>, y: Seq<char>)
    requires
        forall|i: int| 0 <= i < a.len() ==> #[trigger] a[i] != '-',
        forall|i: int| 0 <= i < b.len() ==> #[trigger] b[i] != '-',
        joined(a, x) == joined(b, y),
    ensures
        a == b,
        x == y,
{
    let left = joined(a, x);
    let right = joined(b, y);
    assert(left[a.len() as int] == '-');
    assert(right[b.len() as int] == '-');
    if a.len() < b.len() {
        assert(right[a.len() as int] == b[a.len() as int]);
    }
    if b.len() < a.len() {
        assert(left[b.len() as int] == a[b.len() as int]);
    }
    assert forall|i: int| 0 <= i < a.len() implies a[i] == b[i] by {
        assert(left[i] == a[i]);
        assert(right[i] == b[i]);
    }
    assert(a =~= b);
    assert(left.len() == right.len());
    assert forall|i: int| 0 <= i < x.len() implies x[i] == y[i] by {
        assert(left[a.len() + 1 + i] == x[i]);
        assert(right[b.len() + 1 + i] == y[i]);
    }
    assert(x =~= y);
}

/// Keys without the length term tell apart any two rows that differ in
/// width, height or index.
pub proof fn law_bad_key_injective(
    width: nat,
    height: nat,
    index: nat,
    other_width: nat,
    other_height: nat,
    other_index: nat,
)
    requires
        bad_key_text(width, height, index) == bad_key_text(other_width, other_height, other_index),
    ensures
        width == other_width,
        height == other_height,
        index == other_index,
{
    lemma_decimal_has_no_dash(width);
    lemma_decimal_has_no_dash(other_width);
    lemma_decimal_has_no_dash(height);
    lemma_decimal_has_no_dash(other_height);
    lemma_joined_injective(
        decimal(width),
        joined(decimal(height), decimal(index)),
        decimal(other_width),
        joined(decimal(other_height), decimal(other_index)),
    );
    lemma_joined_injective(
        decimal(height),
        decimal(index),
        decimal(other_height),
        decimal(other_index),
    );
    lemma_decimal_injective(width, other_width);
    lemma_decimal_injective(height, other_height);
    lemma_decimal_injective(index, other_index);
}

/// Keys with the length term tell apart any two rows that differ in length,
/// width, height or index.
pub proof fn law_good_key_injective(
    len: nat,
    width: nat,
    height: nat,
    index: nat,
    other_len: nat,
    other_width: nat,
    other_height: nat,
    other_index: nat,
)
    requires
        good_key_text(len, width, height, index) == good_key_text(
            other_len,
            other_width,
            other_height,
            other_index,
        ),
    ensures
        len == other_len,
        width == other_width,
        height == other_height,
        index == other_index,
{
    lemma_decimal_has_no_dash(len);
    lemma_decimal_has_no_dash(other_len);
    lemma_joined_injective(
        decimal(len),
        bad_key_text(width, height, index),
        decimal(other_len),
        bad_key_text(other_width, other_height, other_index),
    );
    lemma_decimal_injective(len, other_len);
    law_bad_key_injective(width, height, index, other_width, other_height, other_index);
}

/// The key of a row that leaves the row's length out.
pub fn bad_key(width: usize, height: usize, index: usize) -> (key: String)
    ensures
        key@ == bad_key_text(width as nat, height as nat, index as nat),
{
    let mut key = String::new();
    push_decimal(&mut key, width);
    key.append("-");
    push_decimal(&mut key, height);
    key.append("-");
    push_decimal(&mut key, index);
    proof {
        reveal_strlit("-");
        assert(key@ =~= bad_key_text(width as nat, height as nat, index as nat));
    }
    key
}

/// The key of a row that starts with the row's length.
pub fn good_key(len: usize, width: usize, height: usize, index: usize) -> (key: String)
    ensures
        key@ == good_key_text(len as nat, width as nat, height as nat, index as nat),
{
    let mut key = String::new();
    push_decimal(&mut key, len);
    key.append("-");
    push_decimal(&mut key, width);
    key.append("-");
    push_decimal(&mut key, height);
    key.append("-");
    push_decimal(&mut key, index);
    proof {
        reveal_strlit("-");
        assert(key@ =~= good_key_text(len as nat, width as nat, height as nat, index as nat));
    }
    key
}

} // verus!
