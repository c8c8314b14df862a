//! The command line of the demonstration program: each positional argument
//! is a count of units to run as one batch, and `-h` or `--help` asks for
//! the usage text instead.
use vstd::prelude::*;

verus! {

/// Whether `c` is one of the ASCII digits `0` to `9`.
pub open spec fn is_digit(c: char) -> bool {
    '0' <= c <= '9'
}

/// The value of the ASCII digit `c`.
pub open spec fn digit_value(c: char) -> int {
    (c as u32) - ('0' as u32)
}

/// The value of the decimal numeral `s`, most significant digit first.
pub open spec fn digits_value(s: Seq<char>) -> int
    decreases s.len(),
{
    if s.len() == 0 {
        0
    } else {
        digits_value(s.drop_last()) * 10 + digit_value(s.last())
    }
}

/// Whether every character of `s` is a digit.
pub open spec fn all_digits(s: Seq<char>) -> bool {
    forall|i: int| 0 <= i < s.len() ==> is_digit(#[trigger] s[i])
}

/// The digits of a count: the text with one leading `+` taken off.
pub open spec fn unsigned_digits(s: Seq<char>) -> Seq<char> {
    if s.len() > 0 && s[0] == '+' {
        s.drop_first()
    } else {
        s
    }
}

/// The count that the text `s` writes: one or more decimal digits, after an
/// optional `+`, whose value fits in a `u64`; `None` for any other text.
pub open spec fn count_text(s: Seq<char>) -> Option<u64> {
    let d = unsigned_digits(s);
    if d.len() > 0 && all_digits(d) && digits_value(d) <= u64::MAX {
        Some(digits_value(d) as u64)
    } else {
        None
    }
}

/// Whether `s` is one of the two spellings of the help flag.
pub open spec fn is_help_flag(s: Seq<char>) -> bool {
    s == seq!['-', 'h'] || s == seq!['-', '-', 'h', 'e', 'l', 'p']
}

/// The characters of each argument.
pub open spec fn texts(args: Seq<String>) -> Seq<Seq<char>> {
    args.map_values(|a: String| a@)
}

/// Whether the command line asks for the usage text: it is empty, or one of
/// its arguments is a help flag.
pub open spec fn asks_usage(args: Seq<Seq<char>>) -> bool {
    args.len() == 0 || exists|i: int| 0 <= i < args.len() && #[trigger] is_help_flag(args[i])
}

/// Whether every argument is a count.
pub open spec fn all_counts(args: Seq<Seq<char>>) -> bool {
    forall|k: int| 0 <= k < args.len() ==> (#[trigger] count_text(args[k])) is Some
}

/// Whether `j` is the first argument that is not a count.
pub open spec fn first_bad_count(args: Seq<Seq<char>>, j: int) -> bool {
    &&& 0 <= j < args.len()
    &&& count_text(args[j]) is None
    &&& forall|i: int| 0 <= i < j ==> (#[trigger] count_text(args[i])) is Some
}

/// The count of each argument.
pub open spec fn counts_of(args: Seq<Seq<char>>) -> Seq<u64> {
    Seq::new(args.len(), |k: int| count_text(args[k])->Some_0)
}

/// What a command line asks the program to do.
#[derive(Debug, PartialEq, Eq)]
pub enum Invocation {
    /// Print the usage text and do nothing else.
    Usage,
    /// Run one batch for each count, one after another.
    Run(Vec<u64>),
    /// Refuse the command line: the argument held is not a count.
    BadCount(String),
}

proof fn lemma_digits_value_nonneg(s: Seq<char>)
    requires
        all_digits(s),
    ensures
        digits_value(s) >= 0,
    decreases s.len(),
{
    if s.len() > 0 {
        lemma_digits_value_nonneg(s.drop_last());
    }
}

/// A numeral's value is at least the value of any of its prefixes.
proof fn lemma_prefix_value_le(s: Seq<char>, i: int)
    requires
        all_digits(s),
        0 <= i <= s.len(),
    ensures
        digits_value(s.subrange(0, i)) <= digits_value(s),
    decreases s.len(),
{
    if i < s.len() {
        let t = s.drop_last();
        lemma_prefix_value_le(t, i);
        lemma_digits_value_nonneg(t);
        assert(t.subrange(0, i) =~= s.subrange(0, i));
    } else {
        assert(s.subrange(0, i) =~= s);
    }
}

/// Whether `s` is a help flag.
pub fn is_help_arg(s: &str) -> (r: bool)
    ensures
        r == is_help_flag(s@),
{
    let len = s.unicode_len();
    if len == 2 {
        let r = s.get_char(0) == '-' && s.get_char(1) == 'h';
        proof {
            if r {
                assert(s@ =~= seq!['-', 'h']);
            }
        }
        r
    } else if len == 6 {
        let r = s.get_char(0) == '-' && s.get_char(1) == '-' && s.get_char(2) == 'h'
            && s.get_char(3) == 'e' && s.get_char(4) == 'l' && s.get_char(5) == 'p';
        proof {
            if r {
                assert(s@ =~= seq!['-', '-', 'h', 'e', 'l', 'p']);
            }
        }
        r
    } else {
        false
    }
}

/// The count that `s` writes, as `u64`'s decimal parser reads it: one or
/// more digits after an optional `+`, with a value that fits; `None` for any
/// other text.
pub fn parse_count(s: &str) -> (r: Option<u64>)
    ensures
        r == count_text(s@),
{
    let len = s.unicode_len();
    let mut start: usize = 0;
    if len > 0 && s.get_char(0) == '+' {
        start = 1;
    }
    let ghost d = unsigned_digits(s@);
    assert(d =~= s@.subrange(start as int, len as int));
    if start >= len {
        return None;
    }
    let mut value: u64 = 0;
    let mut i: usize = start;
    while i < len
        invariant
            start <= i <= len,
            len == s@.len(),
            d == unsigned_digits(s@),
            d == s@.subrange(start as int, len as int),
            forall|j: int| start <= j < i ==> is_digit(#[trigger] s@[j]),
            value == digits_value(s@.subrange(start as int, i as int)),
        decreases len - i,
    {
        let c = s.get_char(i);
        if !(c >= '0' && c <= '9') {
            assert(d[i - start] == c);
            assert(!all_digits(d));
            return None;
        }
        let digit = (c as u32 - '0' as u32) as u64;
        let ghost next = s@.subrange(start as int, i + 1);
        assert(next.drop_last() =~= s@.subrange(start as int, i as int));
        assert(next.last() == c);
        assert(digits_value(next) == value * 10 + digit);
        match value.checked_mul(10) {
            Some(tens) => match tens.checked_add(digit) {
                Some(v) => {
                    value = v;
                },
                None => {
                    proof {
                        if all_digits(d) {
                            lemma_prefix_value_le(d, i + 1 - start);
                            assert(d.subrange(0, i + 1 - start) =~= next);
                        }
                    }
                    return None;
                },
            },
            None => {
                proof {
                    if all_digits(d) {
                        lemma_prefix_value_le(d, i + 1 - start);
                        assert(d.subrange(0, i + 1 - start) =~= next);
                        lemma_digits_value_nonneg(next.drop_last());
                    }
                }
                return None;
            },
        }
        i = i + 1;
    }
    assert(s@.subrange(start as int, i as int) =~= d);
    Some(value)
}

/// Reads the command line `args`, the program's name left out. It asks for
/// the usage text when it is empty or holds a help flag anywhere; otherwise
/// it runs one batch per argument when every argument is a count, and is
/// refused for the first argument that is not.
pub fn interpret(args: &Vec<String>) -> (r: Invocation)
    ensures
        r is Usage <==> asks_usage(texts(args@)),
        !asks_usage(texts(args@)) && all_counts(texts(args@)) ==> r is Run && r->Run_0@
            == counts_of(texts(args@)),
        forall|j: int|
            #![trigger first_bad_count(texts(args@), j)]
            !asks_usage(texts(args@)) && first_bad_count(texts(args@), j) ==> r is BadCount
                && r->BadCount_0@ == texts(args@)[j],
{
    let ghost t = texts(args@);
    if args.len() == 0 {
        return Invocation::Usage;
    }
    let mut k: usize = 0;
    while k < args.len()
        invariant
            k <= args@.len(),
            t == texts(args@),
            forall|i: int| 0 <= i < k ==> !is_help_flag(#[trigger] t[i]),
        decreases args@.len() - k,
    {
        if is_help_arg(args[k].as_str()) {
            assert(is_help_flag(t[k as int]));
            return Invocation::Usage;
        }
        k = k + 1;
    }
    assert(!asks_usage(t));
    let mut counts: Vec<u64> = Vec::new();
    let mut k: usize = 0;
    while k < args.len()
        invariant
            k <= args@.len(),
            t == texts(args@),
            !asks_usage(t),
            forall|i: int| 0 <= i < k ==> (#[trigger] count_text(t[i])) is Some,
            counts@ == counts_of(t).take(k as int),
        decreases args@.len() - k,
    {
        match parse_count(args[k].as_str()) {
            Some(n) => {
                counts.push(n);
            },
            None => {
                assert(first_bad_count(t, k as int));
                assert forall|j: int| first_bad_count(t, j) implies j == k by {}
                return Invocation::BadCount(args[k].clone());
            },
        }
        k = k + 1;
        assert(counts@ =~= counts_of(t).take(k as int));
    }
    assert(counts@ =~= counts_of(t));
    assert forall|j: int| !first_bad_count(t, j) by {}
    Invocation::Run(counts)
}

} // verus!
