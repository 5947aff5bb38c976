//! The identity of a view, and where in the blueprint the view is kept.
use crate::path::{entity_path_parts, join_path, single_part_path};
use re_log_types::EntityPath;
use vstd::prelude::*;
use vstd::string::StringExecFns;

verus! {

/// The identity of a view: a universally unique identifier.
#[derive(Clone, Copy, Debug, PartialEq, Eq, PartialOrd, Ord, Hash, Structural)]
pub struct SpaceViewId {
    pub bits: u128,
}

pub open spec fn hex_digit(value: int) -> char {
    if value == 0 {
        '0'
    } else if value == 1 {
        '1'
    } else if value == 2 {
        '2'
    } else if value == 3 {
        '3'
    } else if value == 4 {
        '4'
    } else if value == 5 {
        '5'
    } else if value == 6 {
        '6'
    } else if value == 7 {
        '7'
    } else if value == 8 {
        '8'
    } else if value == 9 {
        '9'
    } else if value == 10 {
        'a'
    } else if value == 11 {
        'b'
    } else if value == 12 {
        'c'
    } else if value == 13 {
        'd'
    } else if value == 14 {
        'e'
    } else {
        'f'
    }
}

/// The last `n` hexadecimal digits of a number.
pub open spec fn hex_digits(value: int, n: nat) -> Seq<char>
    decreases n,
{
    if n == 0 {
        Seq::empty()
    } else {
        hex_digits(value / 16, (n - 1) as nat).push(hex_digit(value % 16))
    }
}

/// The identifier written out: five groups of digits with hyphens in between.
pub open spec fn id_text(bits: u128) -> Seq<char> {
    hex_digits(bits as int / 0x1_0000_0000_0000_0000_0000_0000, 8) + seq!['-'] + hex_digits(
        bits as int / 0x1_0000_0000_0000_0000_0000,
        4,
    ) + seq!['-'] + hex_digits(bits as int / 0x1_0000_0000_0000_0000, 4) + seq!['-'] + hex_digits(
        bits as int / 0x1_0000_0000_0000,
        4,
    ) + seq!['-'] + hex_digits(bits as int, 12)
}

/// The parts of the path that a view is kept at.
pub open spec fn view_parts(id: SpaceViewId) -> Seq<Seq<char>> {
    seq!["space_view"@, id_text(id.bits)]
}

fn digit_text(value: u128) -> (r: &'static str)
    requires
        value < 16,
    ensures
        r@ == seq![hex_digit(value as int)],
{
    proof {
        reveal_strlit("0");
        reveal_strlit("1");
        reveal_strlit("2");
        reveal_strlit("3");
        reveal_strlit("4");
        reveal_strlit("5");
        reveal_strlit("6");
        reveal_strlit("7");
        reveal_strlit("8");
        reveal_strlit("9");
        reveal_strlit("a");
        reveal_strlit("b");
        reveal_strlit("c");
        reveal_strlit("d");
        reveal_strlit("e");
        reveal_strlit("f");
    }
    let r = if value == 0 {
        "0"
    } else if value == 1 {
        "1"
    } else if value == 2 {
        "2"
    } else if value == 3 {
        "3"
    } else if value == 4 {
        "4"
    } else if value == 5 {
        "5"
    } else if value == 6 {
        "6"
    } else if value == 7 {
        "7"
    } else if value == 8 {
        "8"
    } else if value == 9 {
        "9"
    } else if value == 10 {
        "a"
    } else if value == 11 {
        "b"
    } else if value == 12 {
        "c"
    } else if value == 13 {
        "d"
    } else if value == 14 {
        "e"
    } else {
        "f"
    };
    assert(r@ =~= seq![hex_digit(value as int)]);
    r
}

/// Writes the last `n` hexadecimal digits of a number.
fn append_hex(text: &mut String, value: u128, n: u64)
    ensures
        final(text)@ == old(text)@ + hex_digits(value as int, n as nat),
    decreases n,
{
    if n > 0 {
        append_hex(text, value / 16, n - 1);
        text.append(digit_text(value % 16));
    }
    assert(text@ =~= old(text)@ + hex_digits(value as int, n as nat));
}

/// The bits of a new random identifier.
///
/// Calls `uuid::Uuid::new_v4`. The claim is that six of the bits say that the identifier is a random
/// one: its version is four, and its variant is the one that begins with the bits one and zero.
/// Nothing is promised of the other bits, which are chance.
#[verifier::external_body]
fn random_uuid() -> (r: u128)
    ensures
        r & 0x0000_0000_0000_f000_c000_0000_0000_0000 == 0x0000_0000_0000_4000_8000_0000_0000_0000,
{
    uuid::Uuid::new_v4().as_u128()
}

impl SpaceViewId {
    /// The identifier that random bits stand for: all but the six that say that they are random.
    pub open spec fn from_random_spec(bits: u128) -> SpaceViewId {
        SpaceViewId {
            bits: bits & 0xffff_ffff_ffff_0fff_3fff_ffff_ffff_ffff
                | 0x0000_0000_0000_4000_8000_0000_0000_0000,
        }
    }

    pub fn from_random(bits: u128) -> (r: SpaceViewId)
        ensures
            r == SpaceViewId::from_random_spec(bits),
    {
        SpaceViewId {
            bits: bits & 0xffff_ffff_ffff_0fff_3fff_ffff_ffff_ffff
                | 0x0000_0000_0000_4000_8000_0000_0000_0000,
        }
    }

    /// A new identifier.
    pub fn random() -> (r: SpaceViewId)
        ensures
            exists|bits: u128| r == #[trigger] SpaceViewId::from_random_spec(bits),
    {
        let bits: u128 = random_uuid();
        proof {
            assert(bits & 0xffff_ffff_ffff_0fff_3fff_ffff_ffff_ffff
                | 0x0000_0000_0000_4000_8000_0000_0000_0000 == bits) by (bit_vector)
                requires
                    bits & 0x0000_0000_0000_f000_c000_0000_0000_0000
                        == 0x0000_0000_0000_4000_8000_0000_0000_0000,
            ;
            assert(SpaceViewId { bits } == SpaceViewId::from_random_spec(bits));
        }
        SpaceViewId { bits }
    }

    /// The identifier written out.
    pub fn text(&self) -> (r: String)
        ensures
            r@ == id_text(self.bits),
    {
        proof {
            reveal_strlit("-");
        }
        let mut text = String::new();
        append_hex(&mut text, self.bits / 0x1_0000_0000_0000_0000_0000_0000, 8);
        text.append("-");
        append_hex(&mut text, self.bits / 0x1_0000_0000_0000_0000_0000, 4);
        text.append("-");
        append_hex(&mut text, self.bits / 0x1_0000_0000_0000_0000, 4);
        text.append("-");
        append_hex(&mut text, self.bits / 0x1_0000_0000_0000, 4);
        text.append("-");
        append_hex(&mut text, self.bits, 12);
        assert(text@ =~= id_text(self.bits));
        text
    }

    /// Where in the blueprint the view is kept.
    pub fn as_entity_path(&self) -> (r: EntityPath)
        ensures
            entity_path_parts(r) == view_parts(*self),
    {
        let registry = single_part_path("space_view");
        let id = single_part_path(self.text().as_str());
        let path = join_path(&registry, &id);
        assert(entity_path_parts(path) =~= view_parts(*self));
        path
    }
}

proof fn lemma_hex_digit(a: int, b: int)
    requires
        0 <= a < 16,
        0 <= b < 16,
        hex_digit(a) == hex_digit(b),
    ensures
        a == b,
{
}

proof fn lemma_num_hex_digits(value: int, n: nat)
    ensures
        hex_digits(value, n).len() == n,
    decreases n,
{
    if n > 0 {
        lemma_num_hex_digits(value / 16, (n - 1) as nat);
    }
}

/// Digits settle the number, as far as there are enough of them.
proof fn lemma_hex_digits(a: int, b: int, n: nat)
    requires
        0 <= a,
        0 <= b,
        hex_digits(a, n) == hex_digits(b, n),
    ensures
        a % vstd::arithmetic::power::pow(16, n) == b % vstd::arithmetic::power::pow(16, n),
    decreases n,
{
    vstd::arithmetic::power::lemma_pow0(16);
    if n > 0 {
        let m = (n - 1) as nat;
        vstd::arithmetic::power::lemma_pow_adds(16, 1, m);
        vstd::arithmetic::power::lemma_pow1(16);
        vstd::arithmetic::power::lemma_pow_positive(16, m);
        let less = vstd::arithmetic::power::pow(16, m);
        assert(hex_digits(a, n).drop_last() =~= hex_digits(a / 16, m));
        assert(hex_digits(b, n).drop_last() =~= hex_digits(b / 16, m));
        assert(hex_digits(a, n).last() == hex_digit(a % 16));
        assert(hex_digits(b, n).last() == hex_digit(b % 16));
        lemma_hex_digit(a % 16, b % 16);
        lemma_hex_digits(a / 16, b / 16, m);
        vstd::arithmetic::div_mod::lemma_mod_breakdown(a, 16, less);
        vstd::arithmetic::div_mod::lemma_mod_breakdown(b, 16, less);
    }
}

/// Law: each view is kept at a place of its own.
pub proof fn law_views_are_kept_apart(a: SpaceViewId, b: SpaceViewId)
    requires
        view_parts(a) == view_parts(b),
    ensures
        a == b,
{
    let x = a.bits as int;
    let y = b.bits as int;
    assert(view_parts(a)[1] == view_parts(b)[1]);
    let text = id_text(a.bits);
    assert forall|value: int, n: nat| (#[trigger] hex_digits(value, n)).len() == n by {
        lemma_num_hex_digits(value, n);
    }
    let p96 = 0x1_0000_0000_0000_0000_0000_0000int;
    let p80 = 0x1_0000_0000_0000_0000_0000int;
    let p64 = 0x1_0000_0000_0000_0000int;
    let p48 = 0x1_0000_0000_0000int;
    assert(hex_digits(x / p96, 8) =~= text.subrange(0, 8));
    assert(hex_digits(y / p96, 8) =~= text.subrange(0, 8));
    assert(hex_digits(x / p80, 4) =~= text.subrange(9, 13));
    assert(hex_digits(y / p80, 4) =~= text.subrange(9, 13));
    assert(hex_digits(x / p64, 4) =~= text.subrange(14, 18));
    assert(hex_digits(y / p64, 4) =~= text.subrange(14, 18));
    assert(hex_digits(x / p48, 4) =~= text.subrange(19, 23));
    assert(hex_digits(y / p48, 4) =~= text.subrange(19, 23));
    assert(hex_digits(x, 12) =~= text.subrange(24, 36));
    assert(hex_digits(y, 12) =~= text.subrange(24, 36));
    lemma_hex_digits(x / p96, y / p96, 8);
    lemma_hex_digits(x / p80, y / p80, 4);
    lemma_hex_digits(x / p64, y / p64, 4);
    lemma_hex_digits(x / p48, y / p48, 4);
    lemma_hex_digits(x, y, 12);
    lemma_powers_of_16();
    vstd::arithmetic::div_mod::lemma_div_denominator(x, p48, 0x1_0000);
    vstd::arithmetic::div_mod::lemma_div_denominator(y, p48, 0x1_0000);
    vstd::arithmetic::div_mod::lemma_div_denominator(x, p64, 0x1_0000);
    vstd::arithmetic::div_mod::lemma_div_denominator(y, p64, 0x1_0000);
    vstd::arithmetic::div_mod::lemma_div_denominator(x, p80, 0x1_0000);
    vstd::arithmetic::div_mod::lemma_div_denominator(y, p80, 0x1_0000);
}

proof fn lemma_powers_of_16()
    ensures
        vstd::arithmetic::power::pow(16, 4) == 0x1_0000,
        vstd::arithmetic::power::pow(16, 8) == 0x1_0000_0000,
        vstd::arithmetic::power::pow(16, 12) == 0x1_0000_0000_0000,
{
    reveal(vstd::arithmetic::power::pow);
    assert(vstd::arithmetic::power::pow(16, 4) == 0x1_0000) by {
        reveal_with_fuel(vstd::arithmetic::power::pow, 5);
    }
    vstd::arithmetic::power::lemma_pow_adds(16, 4, 4);
    vstd::arithmetic::power::lemma_pow_adds(16, 8, 4);
}

} // verus!
