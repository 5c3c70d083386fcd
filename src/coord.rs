use vstd::prelude::*;
use vstd::string::*;

verus! {

/// The address of one tile: zoom level, column and row.
#[derive(Debug, Clone, Copy, PartialEq, Eq)]
pub struct Xyz {
    pub z: u8,
    pub x: u32,
    pub y: u32,
}

pub open spec fn digit_char(d: int) -> char {
    "0123456789"@[d]
}

/// The decimal digits of `n`, most significant first, with no leading zero.
pub open spec fn decimal(n: nat) -> Seq<char>
    decreases n,
{
    if n < 10 {
        seq![digit_char(n as int)]
    } else {
        decimal(n / 10) + seq![digit_char((n % 10) as int)]
    }
}

/// `z`, `x` and `y` in decimal, joined by `sep`.
pub open spec fn xyz_text(c: Xyz, sep: char) -> Seq<char> {
    decimal(c.z as nat) + seq![sep] + decimal(c.x as nat) + seq![sep] + decimal(c.y as nat)
}

fn push_decimal(out: &mut String, n: u32)
    ensures
        final(out)@ == old(out)@ + decimal(n as nat),
    decreases n,
{
    if n >= 10 {
        push_decimal(out, n / 10);
    }
    let digits = "0123456789";
    proof {
        reveal_strlit("0123456789");
    }
    let k = (n % 10) as usize;
    let d = digits.substring_char(k, k + 1);
    assert(d@ =~= seq![digit_char(k as int)]);
    out.append(d);
}

fn push_sep(out: &mut String, slash: bool)
    ensures
        final(out)@ == old(out)@ + seq![if slash { '/' } else { ',' }],
{
    if slash {
        let s = "/";
        proof {
            reveal_strlit("/");
        }
        assert(s@ =~= seq!['/']);
        out.append(s);
    } else {
        let s = ",";
        proof {
            reveal_strlit(",");
        }
        assert(s@ =~= seq![',']);
        out.append(s);
    }
}

impl Xyz {
    /// The text of this address: `z,x,y`, or `z/x/y` when `slash` is set.
    pub fn render(&self, slash: bool) -> (r: String)
        ensures
            r@ == xyz_text(*self, if slash { '/' } else { ',' }),
    {
        let mut out = String::new();
        push_decimal(&mut out, self.z as u32);
        push_sep(&mut out, slash);
        push_decimal(&mut out, self.x);
        push_sep(&mut out, slash);
        push_decimal(&mut out, self.y);
        assert(out@ =~= xyz_text(*self, if slash { '/' } else { ',' }));
        out
    }
}

} // verus!
