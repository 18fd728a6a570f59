//! The renderings of the containers: how the texts of the elements are put
//! together, and the decimal text of an integer element.

use vstd::prelude::*;
use vstd::string::*;

verus! {

/// The character of one decimal digit.
pub open spec fn digit(d: int) -> char {
    if d == 0 {
        '0'
    } else if d == 1 {
        '1'
    } else if d == 2 {
        '2'
    } else if d == 3 {
        '3'
    } else if d == 4 {
        '4'
    } else if d == 5 {
        '5'
    } else if d == 6 {
        '6'
    } else if d == 7 {
        '7'
    } else if d == 8 {
        '8'
    } else {
        '9'
    }
}

/// The decimal digits of `n`, most significant first, without leading zeros.
pub open spec fn digits(n: nat) -> Seq<char>
    decreases n,
{
    if n < 10 {
        seq![digit(n as int)]
    } else {
        digits(n / 10).push(digit((n % 10) as int))
    }
}

/// The decimal text of `v`: a minus sign for a negative value, then its digits.
pub open spec fn decimal(v: int) -> Seq<char> {
    if v < 0 {
        seq!['-'] + digits((-v) as nat)
    } else {
        digits(v as nat)
    }
}

fn digit_text(d: u64) -> (r: &'static str)
    requires
        d < 10,
    ensures
        r@ == seq![digit(d as int)],
{
    proof {
        reveal_strlit("0");
        reveal_strlit("1");
        reveal_strlit("2");
        reveal_strlit("3");
        reveal_strlit("4");
        reveal_strlit("5");
        reveal_strlit("6");
        reveal_strlit("7");
        reveal_strlit("8");
        reveal_strlit("9");
    }
    let r = if d == 0 {
        "0"
    } else if d == 1 {
        "1"
    } else if d == 2 {
        "2"
    } else if d == 3 {
        "3"
    } else if d == 4 {
        "4"
    } else if d == 5 {
        "5"
    } else if d == 6 {
        "6"
    } else if d == 7 {
        "7"
    } else if d == 8 {
        "8"
    } else {
        "9"
    };
    assert(r@ =~= seq![digit(d as int)]);
    r
}

fn append_digits(out: &mut String, n: u64)
    ensures
        final(out)@ == old(out)@ + digits(n as nat),
    decreases n,
{
    if n >= 10 {
        append_digits(out, n / 10);
    }
    let d = digit_text(n % 10);
    out.append(d);
    assert(out@ =~= old(out)@ + digits(n as nat));
}

/// Appends the decimal text of `v` to `out`.
pub fn append_decimal(out: &mut String, v: i32)
    ensures
        final(out)@ == old(out)@ + decimal(v as int),
{
    let wide: i64 = v as i64;
    if wide < 0 {
        proof {
            reveal_strlit("-");
        }
        out.append("-");
        append_digits(out, (-wide) as u64);
        assert(out@ =~= old(out)@ + decimal(v as int));
    } else {
        append_digits(out, wide as u64);
    }
}

/// What the strings in `parts` hold.
pub open spec fn texts(parts: Seq<String>) -> Seq<Seq<char>> {
    Seq::new(parts.len(), |i: int| parts[i]@)
}

/// The decimal texts of the elements of `s`.
pub open spec fn decimals(s: Seq<i32>) -> Seq<Seq<char>> {
    Seq::new(s.len(), |i: int| decimal(s[i] as int))
}

/// The text between two elements of a rendered sequence.
pub open spec fn arrow() -> Seq<char> {
    seq![' ', '-', '>', ' ']
}

/// Each text of `parts`, followed by an arrow.
pub open spec fn links_text(parts: Seq<Seq<char>>) -> Seq<char>
    decreases parts.len(),
{
    if parts.len() == 0 {
        Seq::empty()
    } else {
        links_text(parts.drop_last()) + parts.last() + arrow()
    }
}

/// The rendering of a sequence whose elements have the texts `parts`: the
/// elements from head to tail, an arrow behind each, and `x` for the end.
pub open spec fn chain_text(parts: Seq<Seq<char>>) -> Seq<char> {
    links_text(parts) + seq!['x']
}

/// Each text of `parts` between square brackets.
pub open spec fn cells_text(parts: Seq<Seq<char>>) -> Seq<char>
    decreases parts.len(),
{
    if parts.len() == 0 {
        Seq::empty()
    } else {
        cells_text(parts.drop_last()) + seq!['['] + parts.last() + seq![']']
    }
}

/// `k` slots that hold nothing.
pub open spec fn slack_text(k: nat) -> Seq<char>
    decreases k,
{
    if k == 0 {
        Seq::empty()
    } else {
        slack_text((k - 1) as nat) + seq!['[', 'x', ']']
    }
}

/// The rendering of a buffer of `capacity` slots whose elements have the
/// texts `parts`: the occupied slots, the slots left over, and `x` for the
/// end.
pub open spec fn buffer_text(parts: Seq<Seq<char>>, capacity: nat) -> Seq<char> {
    cells_text(parts) + slack_text((capacity - parts.len()) as nat) + seq!['x']
}

/// The texts of `parts`, bottom first: `[` before the first and `|` before
/// each of the others.
pub open spec fn pile_text(parts: Seq<Seq<char>>) -> Seq<char>
    decreases parts.len(),
{
    if parts.len() == 0 {
        Seq::empty()
    } else if parts.len() == 1 {
        seq!['['] + parts.last()
    } else {
        pile_text(parts.drop_last()) + seq!['|'] + parts.last()
    }
}

/// The rendering of a stack whose elements have the texts `parts`, or `[x`
/// where it has none.
pub open spec fn stack_text(parts: Seq<Seq<char>>) -> Seq<char> {
    if parts.len() == 0 {
        seq!['[', 'x']
    } else {
        pile_text(parts)
    }
}

/// The decimal texts of the first `count` elements of `values`.
pub fn decimal_texts(values: &[i32], count: usize) -> (r: Vec<String>)
    requires
        count <= values@.len(),
    ensures
        r@.len() == count,
        texts(r@) == decimals(values@.take(count as int)),
{
    let mut parts: Vec<String> = Vec::new();
    let mut at: usize = 0;
    assert(texts(parts@) =~= decimals(values@.take(0)));
    while at < count
        invariant
            at <= count <= values@.len(),
            parts@.len() == at,
            texts(parts@) == decimals(values@.take(at as int)),
        decreases count - at,
    {
        let mut text = String::new();
        append_decimal(&mut text, values[at]);
        assert(text@ =~= decimal(values@[at as int] as int));
        let ghost before = parts@;
        parts.push(text);
        at += 1;
        proof {
            let now = texts(parts@);
            let goal = decimals(values@.take(at as int));
            assert forall|i: int| 0 <= i < at implies now[i] == goal[i] by {
                if i < at - 1 {
                    assert(texts(before)[i] == decimals(values@.take(at - 1))[i]);
                }
            }
            assert(now =~= goal);
        }
    }
    parts
}

/// Renders a sequence from the texts of its elements.
pub fn join_chain(parts: &Vec<String>) -> (r: String)
    ensures
        r@ == chain_text(texts(parts@)),
{
    let mut out = String::new();
    let n: usize = parts.len();
    let mut at: usize = 0;
    proof {
        reveal_strlit(" -> ");
        reveal_strlit("x");
        assert(" -> "@ =~= arrow());
        assert("x"@ =~= seq!['x']);
        assert(out@ =~= links_text(texts(parts@).take(0)));
    }
    while at < n
        invariant
            at <= n,
            n == parts@.len(),
            out@ == links_text(texts(parts@).take(at as int)),
            " -> "@ == arrow(),
        decreases n - at,
    {
        proof {
            let next = texts(parts@).take(at + 1);
            assert(next.drop_last() =~= texts(parts@).take(at as int));
            assert(next.last() == parts@[at as int]@);
        }
        out.append(parts[at].as_str());
        out.append(" -> ");
        at += 1;
    }
    assert(texts(parts@).take(n as int) =~= texts(parts@));
    out.append("x");
    out
}

/// Renders a buffer of `capacity` slots from the texts of its elements.
pub fn join_buffer(parts: &Vec<String>, capacity: usize) -> (r: String)
    requires
        parts@.len() <= capacity,
    ensures
        r@ == buffer_text(texts(parts@), capacity as nat),
{
    let mut out = String::new();
    let n: usize = parts.len();
    proof {
        reveal_strlit("[");
        reveal_strlit("]");
        reveal_strlit("[x]");
        reveal_strlit("x");
        assert("["@ =~= seq!['[']);
        assert("]"@ =~= seq![']']);
        assert("[x]"@ =~= seq!['[', 'x', ']']);
        assert("x"@ =~= seq!['x']);
        assert(out@ =~= cells_text(texts(parts@).take(0)));
    }
    let mut i: usize = 0;
    while i < n
        invariant
            i <= n,
            n == parts@.len(),
            out@ == cells_text(texts(parts@).take(i as int)),
            "["@ == seq!['['],
            "]"@ == seq![']'],
        decreases n - i,
    {
        proof {
            let next = texts(parts@).take(i + 1);
            assert(next.drop_last() =~= texts(parts@).take(i as int));
            assert(next.last() == parts@[i as int]@);
        }
        out.append("[");
        out.append(parts[i].as_str());
        out.append("]");
        i += 1;
    }
    assert(texts(parts@).take(n as int) =~= texts(parts@));
    let spare: usize = capacity - n;
    let mut k: usize = 0;
    assert(out@ =~= cells_text(texts(parts@)) + slack_text(0));
    while k < spare
        invariant
            k <= spare,
            out@ == cells_text(texts(parts@)) + slack_text(k as nat),
            "[x]"@ == seq!['[', 'x', ']'],
        decreases spare - k,
    {
        out.append("[x]");
        k += 1;
        assert(out@ =~= cells_text(texts(parts@)) + slack_text(k as nat));
    }
    out.append("x");
    out
}

/// Renders a stack from the texts of its elements, bottom first.
pub fn join_stack(parts: &Vec<String>) -> (r: String)
    ensures
        r@ == stack_text(texts(parts@)),
{
    let mut out = String::new();
    let n: usize = parts.len();
    proof {
        reveal_strlit("[x");
        reveal_strlit("[");
        reveal_strlit("|");
        assert("[x"@ =~= seq!['[', 'x']);
        assert("["@ =~= seq!['[']);
        assert("|"@ =~= seq!['|']);
    }
    if n == 0 {
        out.append("[x");
        return out;
    }
    let mut i: usize = 0;
    assert(out@ =~= pile_text(texts(parts@).take(0)));
    while i < n
        invariant
            i <= n,
            n == parts@.len(),
            out@ == pile_text(texts(parts@).take(i as int)),
            "["@ == seq!['['],
            "|"@ == seq!['|'],
        decreases n - i,
    {
        proof {
            let next = texts(parts@).take(i + 1);
            assert(next.drop_last() =~= texts(parts@).take(i as int));
            assert(next.last() == parts@[i as int]@);
        }
        if i == 0 {
            out.append("[");
        } else {
            out.append("|");
        }
        out.append(parts[i].as_str());
        i += 1;
    }
    assert(texts(parts@).take(n as int) =~= texts(parts@));
    out
}

} // verus!
