//! Numbers and plans as text.

use vstd::prelude::*;
use vstd::string::*;

use crate::ntt::plan::{NttPlan, PassConfig};

verus! {

/// The digit `d` of a decimal number.
pub open spec fn digit(d: int) -> char {
    (48 + d) as char
}

/// `x` in decimal.
pub open spec fn decimal(x: int) -> Seq<char>
    decreases x,
{
    if x < 10 {
        seq![digit(x)]
    } else {
        decimal(x / 10).push(digit(x % 10))
    }
}

/// Append `x` in decimal.
pub fn push_decimal(s: &mut String, x: u64)
    ensures
        final(s)@ == old(s)@ + decimal(x as int),
    decreases x,
{
    if x >= 10 {
        push_decimal(s, x / 10);
    }
    let c: char = (48 + (x % 10) as u8) as char;
    s.push(c);
}

/// The hexadecimal digit `d`, in lower case.
pub open spec fn hex_digit(d: int) -> char {
    if d < 10 {
        (48 + d) as char
    } else {
        (87 + d) as char
    }
}

/// `x` in hexadecimal, with zeros in front up to `width` digits.
pub open spec fn hex(x: int, width: int) -> Seq<char>
    decreases
            x + if width > 0 {
                width
            } else {
                0
            },
{
    if x < 16 && width <= 1 {
        seq![hex_digit(x)]
    } else if x < 0 {
        seq![]
    } else {
        hex(x / 16, width - 1).push(hex_digit(x % 16))
    }
}

/// Append `x` in hexadecimal, with zeros in front up to `width` digits.
pub fn push_hex(s: &mut String, x: u32, width: u32)
    ensures
        final(s)@ == old(s)@ + hex(x as int, width as int),
    decreases x + width,
{
    if x >= 16 || width > 1 {
        let rest: u32 = if width > 0 {
            width - 1
        } else {
            0
        };
        proof {
            lemma_hex_width((x / 16) as int, width - 1);
        }
        push_hex(s, x / 16, rest);
    }
    let d: u8 = (x % 16) as u8;
    let c: char = if d < 10 {
        (48 + d) as char
    } else {
        (87 + d) as char
    };
    s.push(c);
}

/// A width below one asks for no zeros.
proof fn lemma_hex_width(x: int, width: int)
    requires
        x >= 0,
    ensures
        width < 0 ==> hex(x, width) == hex(x, 0),
    decreases x,
{
    if width < 0 && x >= 16 {
        lemma_hex_width(x / 16, width - 1);
        lemma_hex_width(x / 16, -1);
    }
}

/// A pass as text: `(lp=_ z=_ wg=_)`.
pub open spec fn pass_text(pass: PassConfig) -> Seq<char> {
    "(lp="@ + decimal(pass.log_pass as int) + " z="@ + decimal(pass.z_count as int) + " wg="@
        + decimal(pass.log_wg as int) + ")"@
}

/// The passes as text, with arrows between them.
pub open spec fn passes_text(passes: Seq<PassConfig>) -> Seq<char>
    decreases passes.len(),
{
    if passes.len() == 0 {
        seq![]
    } else if passes.len() == 1 {
        pass_text(passes[0])
    } else {
        passes_text(passes.drop_last()) + " → "@ + pass_text(passes.last())
    }
}

/// A one-line description of a plan's passes.
pub fn describe_plan(plan: &NttPlan) -> (r: String)
    ensures
        r@ == passes_text(plan.passes@),
{
    let mut text = "".to_owned();
    let count = plan.passes.len();
    let mut i: usize = 0;
    proof {
        reveal_strlit("");
        assert(text@ =~= passes_text(plan.passes@.take(0)));
    }
    while i < count
        invariant
            i <= count,
            count == plan.passes@.len(),
            text@ == passes_text(plan.passes@.take(i as int)),
        decreases count - i,
    {
        let ghost before = text@;
        let pass = plan.passes[i];
        if i > 0 {
            text.append(" → ");
        }
        let ghost start = text@;
        text.append("(lp=");
        push_decimal(&mut text, pass.log_pass as u64);
        text.append(" z=");
        push_decimal(&mut text, pass.z_count as u64);
        text.append(" wg=");
        push_decimal(&mut text, pass.log_wg as u64);
        text.append(")");
        proof {
            let next = plan.passes@.take(i + 1);
            assert(next.drop_last() =~= plan.passes@.take(i as int));
            assert(next.last() == pass);
            assert(text@ =~= start + pass_text(pass));
            if i == 0 {
                assert(plan.passes@.take(0) =~= Seq::empty());
                assert(text@ =~= pass_text(pass));
            }
        }
        i = i + 1;
    }
    proof {
        assert(plan.passes@.take(count as int) =~= plan.passes@);
    }
    text
}

/// Decimal text names its number: read digit by digit it gives the number
/// back, it has digits only, and a longer text has no zero in front.
pub proof fn law_decimal_names_number(x: int)
    requires
        x >= 0,
    ensures
        decimal(x).fold_left(0, |v: int, c: char| 10 * v + (c as int - '0' as int)) == x,
        decimal(x).len() >= 1,
        forall|i: int| 0 <= i < decimal(x).len() ==> '0' <= #[trigger] decimal(x)[i] <= '9',
        decimal(x).len() > 1 ==> decimal(x)[0] != '0',
    decreases x,
{
    let read = |v: int, c: char| 10 * v + (c as int - '0' as int);
    let s = decimal(x);
    if x < 10 {
        assert(s.drop_last() =~= Seq::empty());
        reveal_with_fuel(Seq::fold_left, 2);
        assert(s.fold_left(0, read) == read(0, digit(x)));
    } else {
        law_decimal_names_number(x / 10);
        let t = decimal(x / 10);
        assert(s.drop_last() =~= t);
        assert(s.last() == digit(x % 10));
        assert(s.fold_left(0, read) == read(t.fold_left(0, read), digit(x % 10)));
        assert forall|i: int| 0 <= i < s.len() implies '0' <= #[trigger] s[i] <= '9' by {
            if i < t.len() {
                assert(s[i] == t[i]);
            }
        }
        assert(s[0] == t[0]);
        if t.len() == 1 {
            assert(x / 10 >= 1);
            reveal_with_fuel(Seq::fold_left, 2);
            assert(t.drop_last() =~= Seq::empty());
            assert(t.fold_left(0, read) == read(0, t[0]));
        }
    }
}

/// Hexadecimal text names its number: read digit by digit it gives the
/// number back, it has at least the digits asked for, and where it has more,
/// no zero in front.
pub proof fn law_hex_names_number(x: int, width: int)
    requires
        x >= 0,
    ensures
        hex(x, width).fold_left(
            0,
            |v: int, c: char|
                16 * v + (if c <= '9' {
                    c as int - '0' as int
                } else {
                    c as int - 'a' as int + 10
                }),
        ) == x,
        hex(x, width).len() >= 1,
        hex(x, width).len() >= width,
        forall|i: int|
            0 <= i < hex(x, width).len() ==> '0' <= #[trigger] hex(x, width)[i] <= '9' || 'a' <= hex(
                x,
                width,
            )[i] <= 'f',
        hex(x, width).len() > 1 && hex(x, width).len() > width ==> hex(x, width)[0] != '0',
    decreases
            x + if width > 0 {
                width
            } else {
                0
            },
{
    let read = |v: int, c: char|
        16 * v + (if c <= '9' {
            c as int - '0' as int
        } else {
            c as int - 'a' as int + 10
        });
    let s = hex(x, width);
    if x < 16 && width <= 1 {
        assert(s.drop_last() =~= Seq::empty());
        reveal_with_fuel(Seq::fold_left, 2);
        assert(s.fold_left(0, read) == read(0, hex_digit(x)));
    } else {
        law_hex_names_number(x / 16, width - 1);
        let t = hex(x / 16, width - 1);
        assert(s.drop_last() =~= t);
        assert(s.last() == hex_digit(x % 16));
        assert(s.fold_left(0, read) == read(t.fold_left(0, read), hex_digit(x % 16)));
        assert forall|i: int| 0 <= i < s.len() implies '0' <= #[trigger] s[i] <= '9' || 'a' <= s[i]
            <= 'f' by {
            if i < t.len() {
                assert(s[i] == t[i]);
            }
        }
        assert(s[0] == t[0]);
        if t.len() == 1 && s.len() > width {
            assert(x >= 16);
            reveal_with_fuel(Seq::fold_left, 2);
            assert(t.drop_last() =~= Seq::empty());
            assert(t.fold_left(0, read) == read(0, t[0]));
        }
    }
}

/// A pass is described by its size, its chunks and its workgroup, in this
/// order and in decimal.
pub proof fn law_pass_description(pass: PassConfig)
    ensures
        ({
            let a = decimal(pass.log_pass as int);
            let b = decimal(pass.z_count as int);
            let c = decimal(pass.log_wg as int);
            let t = pass_text(pass);
            let la = a.len() as int;
            let lb = b.len() as int;
            let lc = c.len() as int;
            &&& t.len() == 4 + la + 3 + lb + 4 + lc + 1
            &&& t.take(4) == seq!['(', 'l', 'p', '=']
            &&& t.subrange(4, 4 + la) == a
            &&& t.subrange(4 + la, 7 + la) == seq![' ', 'z', '=']
            &&& t.subrange(7 + la, 7 + la + lb) == b
            &&& t.subrange(7 + la + lb, 11 + la + lb) == seq![
                ' ',
                'w',
                'g',
                '=',
            ]
            &&& t.subrange(11 + la + lb, 11 + la + lb + lc) == c
            &&& t.last() == ')'
        }),
{
    reveal_strlit("(lp=");
    reveal_strlit(" z=");
    reveal_strlit(" wg=");
    reveal_strlit(")");
    let a = decimal(pass.log_pass as int);
    let b = decimal(pass.z_count as int);
    let c = decimal(pass.log_wg as int);
    let t = pass_text(pass);
    let la = a.len() as int;
    let lb = b.len() as int;
    let lc = c.len() as int;
    assert(t.take(4) =~= seq!['(', 'l', 'p', '=']);
    assert(t.subrange(4, 4 + la) =~= a);
    assert(t.subrange(4 + la, 7 + la) =~= seq![' ', 'z', '=']);
    assert(t.subrange(7 + la, 7 + la + lb) =~= b);
    assert(t.subrange(7 + la + lb, 11 + la + lb) =~= seq![' ', 'w', 'g', '=']);
    assert(t.subrange(11 + la + lb, 11 + la + lb + lc) =~= c);
}

/// A plan's description holds every pass, in order: no passes give no text,
/// one pass its own, and one more pass appends an arrow and its text.
pub proof fn law_every_pass_is_described(passes: Seq<PassConfig>, p: PassConfig)
    ensures
        passes_text(Seq::empty()) == Seq::<char>::empty(),
        passes.len() == 0 ==> passes_text(passes.push(p)) == pass_text(p),
        passes.len() > 0 ==> passes_text(passes.push(p)) == passes_text(passes) + seq![
            ' ',
            '\u{2192}',
            ' ',
        ] + pass_text(p),
{
    reveal_strlit(" → ");
    assert(passes.push(p).drop_last() =~= passes);
    assert(" → "@ =~= seq![' ', '\u{2192}', ' ']);
}

} // verus!
