use vstd::prelude::*;
use crate::list::DoublyLinkedList;

verus! {

/// The decimal digit character for `d`.
pub open spec fn digit_char(d: int) -> char {
    if d == 0 {
        '0'
    } else if d == 1 {
        '1'
    } else if d == 2 {
        '2'
    } else if d == 3 {
        '3'
    } else if d == 4 {
        '4'
    } else if d == 5 {
        '5'
    } else if d == 6 {
        '6'
    } else if d == 7 {
        '7'
    } else if d == 8 {
        '8'
    } else {
        '9'
    }
}

/// The decimal digits of `n`, most significant first.
pub open spec fn dec_digits(n: nat) -> Seq<char>
    decreases n,
{
    if n < 10 {
        seq![digit_char(n as int)]
    } else {
        dec_digits(n / 10) + seq![digit_char((n % 10) as int)]
    }
}

/// The decimal rendering of `n`, with a leading minus sign when negative.
pub open spec fn dec_str(n: int) -> Seq<char> {
    if n < 0 {
        seq!['-'] + dec_digits((-n) as nat)
    } else {
        dec_digits(n as nat)
    }
}

/// The rendering of a non-empty run of values: decimal values joined by the
/// link marker, closed by the end marker.
pub open spec fn render_items(vals: Seq<i64>) -> Seq<char>
    decreases vals.len(),
{
    if vals.len() <= 1 {
        dec_str(vals[0] as int) + " --> end"@
    } else {
        dec_str(vals[0] as int) + " <-> "@ + render_items(vals.drop_first())
    }
}

/// The rendering of a value sequence: nothing at all for the empty one.
pub open spec fn render_spec(vals: Seq<i64>) -> Seq<char> {
    if vals.len() == 0 {
        Seq::empty()
    } else {
        render_items(vals)
    }
}

/// Relies on String::push: it appends exactly the one given character.
#[verifier::external_body]
fn push_char(s: &mut String, c: char)
    ensures
        final(s)@ == old(s)@.push(c),
{
    s.push(c);
}

/// Relies on String::push_str: it appends exactly the given slice's
/// characters.
#[verifier::external_body]
fn push_slice(s: &mut String, t: &str)
    ensures
        final(s)@ == old(s)@ + t@,
{
    s.push_str(t);
}

/// Append the digit character for `d`.
fn push_digit(s: &mut String, d: u64)
    requires
        d < 10,
    ensures
        final(s)@ == old(s)@.push(digit_char(d as int)),
{
    let c: char = if d == 0 {
        '0'
    } else if d == 1 {
        '1'
    } else if d == 2 {
        '2'
    } else if d == 3 {
        '3'
    } else if d == 4 {
        '4'
    } else if d == 5 {
        '5'
    } else if d == 6 {
        '6'
    } else if d == 7 {
        '7'
    } else if d == 8 {
        '8'
    } else {
        '9'
    };
    push_char(s, c);
}

/// Append the decimal digits of `n`, most significant first.
fn push_dec(s: &mut String, n: u64)
    ensures
        final(s)@ == old(s)@ + dec_digits(n as nat),
    decreases n,
{
    if n < 10 {
        push_digit(s, n);
        proof {
            assert(old(s)@ + dec_digits(n as nat) =~= old(s)@.push(digit_char(n as int)));
        }
    } else {
        push_dec(s, n / 10);
        push_digit(s, n % 10);
        proof {
            assert(old(s)@ + dec_digits(n as nat) =~= (old(s)@ + dec_digits((n / 10) as nat)).push(
                digit_char((n % 10) as int),
            ));
        }
    }
}

/// Append the decimal rendering of `v`, sign included.
fn push_value(s: &mut String, v: i64)
    ensures
        final(s)@ == old(s)@ + dec_str(v as int),
{
    if v >= 0 {
        push_dec(s, v as u64);
    } else {
        push_char(s, '-');
        let m: u64 = ((-(v + 1)) as u64) + 1;
        proof {
            assert(m == -(v as int));
        }
        push_dec(s, m);
        proof {
            assert(old(s)@ + dec_str(v as int) =~= old(s)@.push('-') + dec_digits(m as nat));
        }
    }
}

impl DoublyLinkedList {
    /// A human-readable snapshot: the values head to tail, joined by a link
    /// marker and closed by an end marker; empty for the empty list.
    pub fn render(&self) -> (s: String)
        requires
            self.wf(),
        ensures
            s@ == render_spec(self@),
    {
        let mut s = String::new();
        proof {
            if self@.len() > 0 {
                assert(self@.skip(0) =~= self@);
            }
        }
        let mut current = self.head;
        let ghost mut j: int = 0;
        while current.is_some()
            invariant
                self.wf(),
                0 <= j <= self.order@.len(),
                current == (if j < self.order@.len() {
                    Some(self.order@[j])
                } else {
                    None::<usize>
                }),
                j < self@.len() ==> s@ + render_items(self@.skip(j)) == render_spec(self@),
                j == self@.len() ==> s@ == render_spec(self@),
            decreases self.order@.len() - j,
        {
            let h = current.unwrap();
            proof {
                assert(self.entry_ok(j));
                assert(self@[j] == self.value_at(self.order@[j]));
            }
            let ghost before = s@;
            push_value(&mut s, self.nodes[h].value);
            let next = self.nodes[h].next;
            if next.is_some() {
                push_slice(&mut s, " <-> ");
                proof {
                    assert(self@.skip(j).drop_first() =~= self@.skip(j + 1));
                    assert(self@.skip(j).len() > 1);
                    assert(s@ + render_items(self@.skip(j + 1)) =~= before + render_items(
                        self@.skip(j),
                    ));
                }
            } else {
                push_slice(&mut s, " --> end");
                proof {
                    assert(self@.skip(j).len() == 1);
                    assert(s@ =~= before + render_items(self@.skip(j)));
                }
            }
            current = next;
            proof {
                j = j + 1;
            }
        }
        s
    }
}

} // verus!
