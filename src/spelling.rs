//! English words for unsigned numbers.
use vstd::arithmetic::div_mod::{lemma_div_decreases, lemma_mod_bound};
use vstd::prelude::*;

verus! {

/// The word for a number below twenty.
pub open spec fn ones_word(n: nat) -> Seq<char> {
    if n == 0 {
        "zero"@
    } else if n == 1 {
        "one"@
    } else if n == 2 {
        "two"@
    } else if n == 3 {
        "three"@
    } else if n == 4 {
        "four"@
    } else if n == 5 {
        "five"@
    } else if n == 6 {
        "six"@
    } else if n == 7 {
        "seven"@
    } else if n == 8 {
        "eight"@
    } else if n == 9 {
        "nine"@
    } else if n == 10 {
        "ten"@
    } else if n == 11 {
        "eleven"@
    } else if n == 12 {
        "twelve"@
    } else if n == 13 {
        "thirteen"@
    } else if n == 14 {
        "fourteen"@
    } else if n == 15 {
        "fifteen"@
    } else if n == 16 {
        "sixteen"@
    } else if n == 17 {
        "seventeen"@
    } else if n == 18 {
        "eighteen"@
    } else {
        "nineteen"@
    }
}

/// The word for a multiple of ten below one hundred, by its tens digit.
pub open spec fn tens_word(n: nat) -> Seq<char> {
    if n == 0 {
        "zero"@
    } else if n == 1 {
        "ten"@
    } else if n == 2 {
        "twenty"@
    } else if n == 3 {
        "thirty"@
    } else if n == 4 {
        "forty"@
    } else if n == 5 {
        "fifty"@
    } else if n == 6 {
        "sixty"@
    } else if n == 7 {
        "seventy"@
    } else if n == 8 {
        "eighty"@
    } else {
        "ninety"@
    }
}

/// The name of the `k`-th power of one thousand.
pub open spec fn order_word(n: nat) -> Seq<char> {
    if n == 0 {
        "zero"@
    } else if n == 1 {
        "thousand"@
    } else if n == 2 {
        "million"@
    } else if n == 3 {
        "billion"@
    } else if n == 4 {
        "trillion"@
    } else if n == 5 {
        "quadrillion"@
    } else {
        "quintillion"@
    }
}

/// The `k`-th power of one thousand, for `k` up to six.
pub open spec fn thousand_pow(k: nat) -> nat {
    if k == 1 {
        1000
    } else if k == 2 {
        1000000
    } else if k == 3 {
        1000000000
    } else if k == 4 {
        1000000000000
    } else if k == 5 {
        1000000000000000
    } else {
        1000000000000000000
    }
}

/// For `n` of at least one thousand, the power of one thousand by which it is
/// named: the first `k` from one on with `1000^k > n / 1000`.
pub open spec fn order_of(n: nat) -> nat {
    if n / 1000 < 1000 {
        1
    } else if n / 1000 < 1000000 {
        2
    } else if n / 1000 < 1000000000 {
        3
    } else if n / 1000 < 1000000000000 {
        4
    } else if n / 1000 < 1000000000000000 {
        5
    } else {
        6
    }
}

/// `upper`, the order's name, and `lower` unless it is zero, with spaces between.
pub open spec fn grouped(upper: Seq<char>, order: Seq<char>, lower: Option<Seq<char>>) -> Seq<char> {
    match lower {
        None => upper + " "@ + order,
        Some(l) => upper + " "@ + order + " "@ + l,
    }
}

/// The English words for `n`.
pub open spec fn spell(n: nat) -> Seq<char>
    decreases n,
{
    if n < 20 {
        ones_word(n)
    } else if n < 100 {
        if n % 10 == 0 {
            tens_word(n / 10)
        } else {
            tens_word(n / 10) + "-"@ + spell(n % 10)
        }
    } else if n < 1000 {
        grouped(
            spell(n / 100),
            "hundred"@,
            if n % 100 == 0 {
                None
            } else {
                Some(spell(n % 100))
            },
        )
    } else {
        let d = thousand_pow(order_of(n));
        grouped(
            spell(n / d),
            order_word(order_of(n)),
            if n % d == 0 {
                None
            } else {
                Some(spell(n % d))
            },
        )
    }
}

/// The word for a number below twenty.
fn ones(n: u64) -> (r: &'static str)
    requires
        n < 20,
    ensures
        r@ == ones_word(n as nat),
{
    match n {
        0 => "zero",
        1 => "one",
        2 => "two",
        3 => "three",
        4 => "four",
        5 => "five",
        6 => "six",
        7 => "seven",
        8 => "eight",
        9 => "nine",
        10 => "ten",
        11 => "eleven",
        12 => "twelve",
        13 => "thirteen",
        14 => "fourteen",
        15 => "fifteen",
        16 => "sixteen",
        17 => "seventeen",
        18 => "eighteen",
        _ => "nineteen",
    }
}

/// The word for a multiple of ten, by its tens digit.
fn tens(n: u64) -> (r: &'static str)
    requires
        n < 10,
    ensures
        r@ == tens_word(n as nat),
{
    match n {
        0 => "zero",
        1 => "ten",
        2 => "twenty",
        3 => "thirty",
        4 => "forty",
        5 => "fifty",
        6 => "sixty",
        7 => "seventy",
        8 => "eighty",
        _ => "ninety",
    }
}

/// The name of a power of one thousand.
fn orders(n: u64) -> (r: &'static str)
    requires
        n < 7,
    ensures
        r@ == order_word(n as nat),
{
    match n {
        0 => "zero",
        1 => "thousand",
        2 => "million",
        3 => "billion",
        4 => "trillion",
        5 => "quadrillion",
        _ => "quintillion",
    }
}

/// The English words for `num`: "seventeen", "forty-two",
/// "three hundred five", "two million one".
pub fn encode(num: u64) -> (r: String)
    ensures
        r@ == spell(num as nat),
    decreases num, 1int,
{
    if num < 20 {
        String::from_str(ones(num))
    } else if num < 100 {
        let upper = num / 10;
        let lower = num % 10;
        if lower == 0 {
            String::from_str(tens(upper))
        } else {
            let mut s = String::from_str(tens(upper));
            s.append("-");
            let rest = encode(lower);
            s.append(rest.as_str());
            s
        }
    } else if num < 1000 {
        format_num(num, 100, "hundred")
    } else {
        let mut div: u64 = 1000;
        let mut k: u64 = 1;
        while div <= num / 1000
            invariant
                1 <= k <= 6,
                div == thousand_pow(k as nat),
                num >= 1000,
                div <= num,
                forall|j: nat| 1 <= j < k ==> thousand_pow(j) <= num / 1000,
            decreases 6 - k,
        {
            if k == 6 {
                assert(false);
            }
            div = div * 1000;
            k = k + 1;
        }
        format_num(num, div, orders(k))
    }
}

/// `num` named by how many times `div` goes into it, the word `order`, and
/// the remainder unless it is zero.
fn format_num(num: u64, div: u64, order: &str) -> (r: String)
    requires
        100 <= div <= num,
    ensures
        r@ == grouped(
            spell((num / div) as nat),
            order@,
            if num % div == 0 {
                None
            } else {
                Some(spell((num % div) as nat))
            },
        ),
    decreases num, 0int,
{
    let upper = num / div;
    let lower = num % div;
    proof {
        lemma_div_decreases(num as int, div as int);
        lemma_mod_bound(num as int, div as int);
    }
    let mut s = encode(upper);
    s.append(" ");
    s.append(order);
    if lower != 0 {
        s.append(" ");
        let rest = encode(lower);
        s.append(rest.as_str());
    }
    s
}

} // verus!
