//! Comparing text and writing numbers.
use vstd::prelude::*;
use vstd::string::{StrSliceExecFns, StringExecFns};

verus! {

/// Whether two texts are the same, character by character.
pub fn same_text(a: &str, b: &str) -> (r: bool)
    ensures
        r == (a@ == b@),
{
    let n = a.unicode_len();
    if n != b.unicode_len() {
        return false;
    }
    for i in 0..n
        invariant
            n == a@.len(),
            n == b@.len(),
            forall|k: int| 0 <= k < i ==> a@[k] == b@[k],
    {
        if a.get_char(i) != b.get_char(i) {
            return false;
        }
    }
    assert(a@ =~= b@);
    true
}

/// The decimal digit for a number below ten.
pub open spec fn digit(d: int) -> char {
    ('0' as int + d) as char
}

/// The decimal digits of a number.
pub open spec fn digits(n: nat) -> Seq<char>
    decreases n,
{
    if n < 10 {
        seq![digit(n as int)]
    } else {
        digits(n / 10).push(digit((n % 10) as int))
    }
}

/// A number as it is written.
pub open spec fn written(n: int) -> Seq<char> {
    if n < 0 {
        "-"@ + digits((-n) as nat)
    } else {
        digits(n as nat)
    }
}

/// The decimal digit for a number below ten.
fn digit_text(d: u64) -> (r: &'static str)
    requires
        d < 10,
    ensures
        r@ == seq![digit(d as int)],
{
    match d {
        0 => {
            proof {
                reveal_strlit("0");
                assert("0"@ =~= seq!['0']);
            }
            "0"
        },
        1 => {
            proof {
                reveal_strlit("1");
                assert("1"@ =~= seq!['1']);
            }
            "1"
        },
        2 => {
            proof {
                reveal_strlit("2");
                assert("2"@ =~= seq!['2']);
            }
            "2"
        },
        3 => {
            proof {
                reveal_strlit("3");
                assert("3"@ =~= seq!['3']);
            }
            "3"
        },
        4 => {
            proof {
                reveal_strlit("4");
                assert("4"@ =~= seq!['4']);
            }
            "4"
        },
        5 => {
            proof {
                reveal_strlit("5");
                assert("5"@ =~= seq!['5']);
            }
            "5"
        },
        6 => {
            proof {
                reveal_strlit("6");
                assert("6"@ =~= seq!['6']);
            }
            "6"
        },
        7 => {
            proof {
                reveal_strlit("7");
                assert("7"@ =~= seq!['7']);
            }
            "7"
        },
        8 => {
            proof {
                reveal_strlit("8");
                assert("8"@ =~= seq!['8']);
            }
            "8"
        },
        _ => {
            proof {
                reveal_strlit("9");
                assert("9"@ =~= seq!['9']);
            }
            "9"
        },
    }
}

/// The decimal digits of a number.
fn digits_text(n: u64) -> (r: String)
    ensures
        r@ == digits(n as nat),
    decreases n,
{
    if n < 10 {
        String::from_str(digit_text(n))
    } else {
        let head = digits_text(n / 10);
        let ghost front = head@;
        let whole = head.concat(digit_text(n % 10));
        assert(whole@ =~= front.push(digit((n % 10) as int)));
        whole
    }
}

/// A number as it is written.
pub fn number_text(n: i32) -> (r: String)
    ensures
        r@ == written(n as int),
{
    let wide: i64 = n as i64;
    if wide < 0 {
        let tail = digits_text((-wide) as u64);
        String::from_str("-").concat(tail.as_str())
    } else {
        digits_text(wide as u64)
    }
}

// ---- what holds of every number ---------------------------------------------

/// The number that decimal digits stand for.
pub open spec fn read(text: Seq<char>) -> int
    decreases text.len(),
{
    if text.len() == 0 {
        0
    } else {
        10 * read(text.drop_last()) + (text.last() as int - '0' as int)
    }
}

/// Digits read back as the number, are digits all, and start with zero only where the number
/// is zero.
proof fn digits_read_back(n: nat)
    ensures
        1 <= digits(n).len(),
        read(digits(n)) == n,
        forall|i: int| 0 <= i < digits(n).len() ==> '0' <= #[trigger] digits(n)[i] <= '9',
        n > 0 ==> digits(n)[0] != '0',
        n == 0 ==> digits(n).len() == 1,
    decreases n,
{
    if n < 10 {
        assert(digits(n).drop_last() =~= Seq::<char>::empty());
        assert(read(Seq::<char>::empty()) == 0);
        assert(read(digits(n)) == 10 * read(digits(n).drop_last()) + (digits(n).last() as int
            - '0' as int));
    } else {
        digits_read_back(n / 10);
        let head = digits(n / 10);
        assert(digits(n).drop_last() =~= head);
        assert(read(digits(n)) == 10 * read(head) + (digits(n).last() as int - '0' as int));
        assert forall|i: int| 0 <= i < digits(n).len() implies '0' <= #[trigger] digits(n)[i]
            <= '9' by {
            if i < head.len() {
                assert(digits(n)[i] == head[i]);
            }
        }
        assert(digits(n)[0] == head[0]);
    }
}

/// A number that is written can be read back: its digits stand for it, without a leading zero,
/// behind a minus sign where it is negative.
pub proof fn numbers_can_be_read_back(n: int)
    ensures
        n >= 0 ==> {
            &&& read(written(n)) == n
            &&& forall|i: int|
                0 <= i < written(n).len() ==> '0' <= #[trigger] written(n)[i] <= '9'
            &&& written(n)[0] == '0' ==> written(n).len() == 1
        },
        n < 0 ==> {
            &&& written(n)[0] == '-'
            &&& read(written(n).skip(1)) == -n
            &&& forall|i: int|
                1 <= i < written(n).len() ==> '0' <= #[trigger] written(n)[i] <= '9'
            &&& written(n)[1] != '0'
        },
{
    if n >= 0 {
        digits_read_back(n as nat);
    } else {
        digits_read_back((-n) as nat);
        reveal_strlit("-");
        assert("-"@.len() == 1 && "-"@[0] == '-');
        assert(written(n).skip(1) =~= digits((-n) as nat));
        assert forall|i: int| 1 <= i < written(n).len() implies '0' <= #[trigger] written(n)[i]
            <= '9' by {
            assert(written(n)[i] == digits((-n) as nat)[i - 1]);
        }
    }
}

} // verus!
