use vstd::prelude::*;

verus! {

use vstd::string::StringExecFns;

/// The decimal digit character for a value below ten.
pub open spec fn digit_char(d: nat) -> char {
    if d == 0 {
        '0'
    } else if d == 1 {
        '1'
    } else if d == 2 {
        '2'
    } else if d == 3 {
        '3'
    } else if d == 4 {
        '4'
    } else if d == 5 {
        '5'
    } else if d == 6 {
        '6'
    } else if d == 7 {
        '7'
    } else if d == 8 {
        '8'
    } else {
        '9'
    }
}

/// The decimal rendering of a number, most significant digit first and
/// without a sign or leading zeros (zero itself renders as one digit).
pub open spec fn decimal_digits(n: nat) -> Seq<char>
    decreases n,
{
    if n < 10 {
        seq![digit_char(n)]
    } else {
        decimal_digits(n / 10).push(digit_char(n % 10))
    }
}

/// The rendering of a run of elements: decimal values separated by ", ",
/// with no separator before the first or after the last.
pub open spec fn rendered_elements(s: Seq<u64>) -> Seq<char>
    decreases s.len(),
{
    if s.len() == 0 {
        Seq::empty()
    } else if s.len() == 1 {
        decimal_digits(s[0] as nat)
    } else {
        rendered_elements(s.drop_last()) + seq![',', ' '] + decimal_digits(s.last() as nat)
    }
}

/// The bracketed, comma-separated rendering of a sequence of values,
/// `[1, 2, 3]` in form, `[]` when the sequence is empty.
pub open spec fn rendered(s: Seq<u64>) -> Seq<char> {
    seq!['['] + rendered_elements(s) + seq![']']
}

/// The one-character string for a decimal digit.
fn digit_str(d: u64) -> (r: &'static str)
    requires
        d < 10,
    ensures
        r@ == seq![digit_char(d as nat)],
{
    proof {
        reveal_strlit("0");
        reveal_strlit("1");
        reveal_strlit("2");
        reveal_strlit("3");
        reveal_strlit("4");
        reveal_strlit("5");
        reveal_strlit("6");
        reveal_strlit("7");
        reveal_strlit("8");
        reveal_strlit("9");
    }
    let r = if d == 0 {
        "0"
    } else if d == 1 {
        "1"
    } else if d == 2 {
        "2"
    } else if d == 3 {
        "3"
    } else if d == 4 {
        "4"
    } else if d == 5 {
        "5"
    } else if d == 6 {
        "6"
    } else if d == 7 {
        "7"
    } else if d == 8 {
        "8"
    } else {
        "9"
    };
    proof {
        assert(r@ =~= seq![digit_char(d as nat)]);
    }
    r
}

/// The decimal rendering of a number as an owned string.
pub fn u64_to_decimal(n: u64) -> (s: String)
    ensures
        s@ == decimal_digits(n as nat),
    decreases n,
{
    if n < 10 {
        digit_str(n).to_owned()
    } else {
        let mut s = u64_to_decimal(n / 10);
        s.append(digit_str(n % 10));
        proof {
            assert(s@ =~= decimal_digits(n as nat));
        }
        s
    }
}

/// How one more element extends a rendering: the first element comes bare,
/// every later one behind the ", " separator.
pub proof fn lemma_rendered_step(s: Seq<u64>, i: int)
    requires
        0 <= i < s.len(),
    ensures
        rendered_elements(s.take(i + 1)) == if i == 0 {
            decimal_digits(s[0] as nat)
        } else {
            rendered_elements(s.take(i)) + seq![',', ' '] + decimal_digits(s[i] as nat)
        },
{
    let t = s.take(i + 1);
    assert(t.drop_last() =~= s.take(i));
    assert(t.last() == s[i]);
    if i == 0 {
        assert(t.len() == 1);
        assert(t[0] == s[0]);
    }
}

/// Textual rendering of an empty structure is the two brackets alone.
pub proof fn lemma_rendered_empty()
    ensures
        rendered(Seq::<u64>::empty()) == seq!['[', ']'],
{
    assert(rendered(Seq::<u64>::empty()) =~= seq!['[', ']']);
}

/// Textual rendering of a single element puts it between the brackets with
/// no separator on either side.
pub proof fn lemma_rendered_single(x: u64)
    ensures
        rendered(seq![x]) == seq!['['] + decimal_digits(x as nat) + seq![']'],
{
    assert(seq![x].len() == 1);
}

/// Render a run of values as the bracketed, comma-separated text that
/// `rendered` describes.
pub fn render_values(values: &Vec<u64>) -> (s: String)
    ensures
        s@ == rendered(values@),
{
    let mut out = "[".to_owned();
    proof {
        reveal_strlit("[");
        assert(out@ =~= seq!['[']);
    }
    let mut i: usize = 0;
    while i < values.len()
        invariant
            i <= values@.len(),
            out@ == seq!['['] + rendered_elements(values@.take(i as int)),
        decreases values@.len() - i,
    {
        if i != 0 {
            out.append(", ");
        }
        let d = u64_to_decimal(values[i]);
        out.append(d.as_str());
        proof {
            reveal_strlit(", ");
            assert((", ")@ =~= seq![',', ' ']);
            lemma_rendered_step(values@, i as int);
            assert(out@ =~= seq!['['] + rendered_elements(values@.take(i + 1 as int)));
        }
        i += 1;
    }
    out.append("]");
    proof {
        reveal_strlit("]");
        assert(("]")@ =~= seq![']']);
        assert(values@.take(values@.len() as int) =~= values@);
        assert(out@ =~= rendered(values@));
    }
    out
}

} // verus!
