use vstd::prelude::*;

use crate::text::{chars_equal, chars_of, push_str};

verus! {

/// What the command line asks for: the board's side, the shortest word, the word list and
/// the cells.
#[derive(Debug, PartialEq, Eq)]
pub struct Config {
    pub size: usize,
    pub min_length: usize,
    pub dict_path: String,
    pub cells: Vec<String>,
}

/// The plain values of a configuration.
pub open spec fn config_view(c: Config) -> (usize, usize, Seq<char>, Seq<Seq<char>>) {
    (c.size, c.min_length, c.dict_path@, c.cells@.map_values(|s: String| s@))
}

/// How to call the program.
pub open spec fn usage_text() -> Seq<char> {
    "Usage:\n  word-grid-solver --size <N> --min-length <N> [--dict <PATH>] <CELL>...\n\nExample:\n  word-grid-solver --size 2 --min-length 3 c a t s"@
}

/// How to call the program.
pub fn usage() -> (r: String)
    ensures
        r@ == usage_text(),
{
    String::from_str(
        "Usage:\n  word-grid-solver --size <N> --min-length <N> [--dict <PATH>] <CELL>...\n\nExample:\n  word-grid-solver --size 2 --min-length 3 c a t s",
    )
}

/// The characters after one leading `+`, if there is one.
pub open spec fn unsigned_digits(v: Seq<char>) -> Seq<char> {
    if v.len() > 0 && v[0] == '+' {
        v.drop_first()
    } else {
        v
    }
}

/// Every character is an ASCII decimal digit.
pub open spec fn all_digits(d: Seq<char>) -> bool {
    forall|i: int| 0 <= i < d.len() ==> '0' <= #[trigger] d[i] <= '9'
}

/// The number that decimal digits write.
pub open spec fn digits_value(d: Seq<char>) -> nat
    decreases d.len(),
{
    if d.len() == 0 {
        0
    } else {
        digits_value(d.drop_last()) * 10 + ((d.last() as nat) - ('0' as nat)) as nat
    }
}

/// What parsing `v` as a `usize` gives: an optional `+` and at least one decimal digit, for
/// a number that fits; nothing otherwise.
pub open spec fn parse_usize(v: Seq<char>) -> Option<nat> {
    let d = unsigned_digits(v);
    if d.len() > 0 && all_digits(d) && digits_value(d) <= usize::MAX {
        Some(digits_value(d))
    } else {
        None
    }
}

/// What reading the value of option `name` gives: the number, or the message that refuses it.
pub open spec fn positive_outcome(name: Seq<char>, v: Seq<char>) -> Result<usize, Seq<char>> {
    match parse_usize(v) {
        None => Err(name + " must be a positive integer"@),
        Some(n) => if n == 0 {
            Err(name + " must be greater than 0"@)
        } else {
            Ok(n as usize)
        },
    }
}

proof fn lemma_digits_value_prefix(d: Seq<char>, k: int)
    requires
        0 <= k <= d.len(),
        all_digits(d),
    ensures
        digits_value(d.take(k)) <= digits_value(d),
    decreases d.len(),
{
    if k < d.len() {
        let e = d.drop_last();
        assert(all_digits(e)) by {
            assert forall|i: int| 0 <= i < e.len() implies '0' <= #[trigger] e[i] <= '9' by {
                assert(e[i] == d[i]);
            }
        }
        lemma_digits_value_prefix(e, k);
        assert(d.take(k) =~= e.take(k));
    } else {
        assert(d.take(k) =~= d);
    }
}

/// The number that `value` writes as a `usize`, if it writes one.
fn read_usize(value: &str) -> (r: Option<usize>)
    ensures
        match r {
            Some(n) => parse_usize(value@) == Some(n as nat),
            None => parse_usize(value@) is None,
        },
{
    let v = chars_of(value);
    let start: usize = if v.len() > 0 && v[0] == '+' {
        1
    } else {
        0
    };
    let ghost d = unsigned_digits(value@);
    assert(d =~= v@.skip(start as int));
    if start >= v.len() {
        return None;
    }
    let mut acc: usize = 0;
    let mut k: usize = start;
    while k < v.len()
        invariant
            start <= k <= v.len(),
            v@ == value@,
            d == v@.skip(start as int),
            d == unsigned_digits(value@),
            all_digits(d.take(k - start)),
            acc == digits_value(d.take(k - start)),
        decreases v.len() - k,
    {
        let c = v[k];
        let ghost j = k - start;
        let ghost t = d.take(j + 1);
        proof {
            assert(t.drop_last() =~= d.take(j));
            assert(t.last() == c);
            assert(d[j] == c);
        }
        if c < '0' || c > '9' {
            assert(!all_digits(d));
            return None;
        }
        proof {
            assert forall|i: int| 0 <= i < j + 1 implies '0' <= #[trigger] t[i] <= '9' by {
                if i < j {
                    assert(t[i] == d.take(j)[i]);
                }
            }
        }
        let digit = (c as u32 - '0' as u32) as usize;
        assert(digits_value(t) == acc * 10 + digit);
        let m = match acc.checked_mul(10) {
            None => {
                proof {
                    if all_digits(d) {
                        lemma_digits_value_prefix(d, j + 1);
                        assert(digits_value(d) > usize::MAX);
                    }
                }
                assert(parse_usize(value@) is None);
                return None;
            },
            Some(m) => m,
        };
        match m.checked_add(digit) {
            None => {
                proof {
                    if all_digits(d) {
                        lemma_digits_value_prefix(d, j + 1);
                    }
                }
                return None;
            },
            Some(n) => {
                acc = n;
            },
        }
        k += 1;
    }
    assert(d.take(k - start) =~= d);
    Some(acc)
}

/// Reads the value of option `name` as a positive number: an optional `+` and decimal
/// digits for a number from 1 to `usize::MAX`. Anything else is refused with a message
/// that names the option.
pub fn parse_positive_usize(name: &str, value: &str) -> (r: Result<usize, String>)
    ensures
        match r {
            Ok(n) => positive_outcome(name@, value@) == Ok::<usize, Seq<char>>(n),
            Err(e) => positive_outcome(name@, value@) == Err::<usize, Seq<char>>(e@),
        },
{
    match read_usize(value) {
        None => {
            let mut s = String::new();
            push_str(&mut s, name);
            push_str(&mut s, " must be a positive integer");
            assert(s@ =~= name@ + " must be a positive integer"@);
            Err(s)
        },
        Some(n) => {
            if n == 0 {
                let mut s = String::new();
                push_str(&mut s, name);
                push_str(&mut s, " must be greater than 0");
                assert(s@ =~= name@ + " must be greater than 0"@);
                Err(s)
            } else {
                Ok(n)
            }
        },
    }
}

/// What the scan of the arguments has gathered: the side, the shortest word, the word
/// list's path and the cells.
pub type ArgState = (Option<usize>, Option<usize>, Seq<char>, Seq<Seq<char>>);

/// Reads the arguments from position `i` on, with `st` gathered so far: the gathered state
/// at the end, or the message of the first argument that is refused.
pub open spec fn scan_args(args: Seq<Seq<char>>, i: int, st: ArgState) -> Result<ArgState, Seq<char>>
    decreases args.len() - i,
{
    if i < 0 || i >= args.len() {
        Ok(st)
    } else {
        let a = args[i];
        if a == "-h"@ || a == "--help"@ {
            Err(usage_text())
        } else if a == "--size"@ {
            if i + 1 >= args.len() {
                Err("--size requires a value"@)
            } else {
                match positive_outcome("--size"@, args[i + 1]) {
                    Err(e) => Err(e),
                    Ok(n) => scan_args(args, i + 2, (Some(n), st.1, st.2, st.3)),
                }
            }
        } else if a == "--min-length"@ {
            if i + 1 >= args.len() {
                Err("--min-length requires a value"@)
            } else {
                match positive_outcome("--min-length"@, args[i + 1]) {
                    Err(e) => Err(e),
                    Ok(n) => scan_args(args, i + 2, (st.0, Some(n), st.2, st.3)),
                }
            }
        } else if a == "--dict"@ {
            if i + 1 >= args.len() {
                Err("--dict requires a path"@)
            } else {
                scan_args(args, i + 2, (st.0, st.1, args[i + 1], st.3))
            }
        } else if a.len() > 0 && a[0] == '-' {
            Err("unknown option '"@ + a + "'"@ + "\n\n"@ + usage_text())
        } else {
            scan_args(args, i + 1, (st.0, st.1, st.2, st.3.push(a)))
        }
    }
}

/// What the command line gives: its configuration, or the message that refuses it. The word
/// list defaults to `twl06.txt`; the side and the shortest word must be given.
pub open spec fn args_outcome(args: Seq<Seq<char>>) -> Result<(usize, usize, Seq<char>, Seq<Seq<char>>), Seq<char>> {
    match scan_args(args, 0, (None, None, "twl06.txt"@, Seq::empty())) {
        Err(e) => Err(e),
        Ok(st) => match st.0 {
            None => Err("--size is required"@ + "\n\n"@ + usage_text()),
            Some(size) => match st.1 {
                None => Err("--min-length is required"@ + "\n\n"@ + usage_text()),
                Some(min_length) => Ok((size, min_length, st.2, st.3)),
            },
        },
    }
}

/// Whether a string is exactly the given text.
fn is_text(a: &str, t: &str) -> (r: bool)
    ensures
        r == (a@ == t@),
{
    let x = chars_of(a);
    let y = chars_of(t);
    chars_equal(x.as_slice(), y.as_slice())
}

/// A message followed by a blank line and the usage.
fn with_usage(message: &str) -> (r: String)
    ensures
        r@ == message@ + "\n\n"@ + usage_text(),
{
    let mut s = String::new();
    push_str(&mut s, message);
    push_str(&mut s, "\n\n");
    let u = usage();
    push_str(&mut s, u.as_str());
    assert(s@ =~= message@ + "\n\n"@ + usage_text());
    s
}

/// Reads the command line: `--size N` and `--min-length N` (both required, positive),
/// `--dict PATH` (default `twl06.txt`), and the cells. `-h` or `--help` answers with the
/// usage; an unknown option, a missing or bad value are refused with a message.
pub fn parse_args(args: Vec<String>) -> (r: Result<Config, String>)
    ensures
        match r {
            Ok(c) => args_outcome(args@.map_values(|s: String| s@)) == Ok::<
                (usize, usize, Seq<char>, Seq<Seq<char>>),
                Seq<char>,
            >(config_view(c)),
            Err(e) => args_outcome(args@.map_values(|s: String| s@)) == Err::<
                (usize, usize, Seq<char>, Seq<Seq<char>>),
                Seq<char>,
            >(e@),
        },
{
    let ghost av = args@.map_values(|s: String| s@);
    let ghost init: ArgState = (None, None, "twl06.txt"@, Seq::empty());
    let mut size: Option<usize> = None;
    let mut min_length: Option<usize> = None;
    let mut dict_path = String::from_str("twl06.txt");
    let mut cells: Vec<String> = Vec::new();
    assert(cells@.map_values(|s: String| s@) =~= Seq::<Seq<char>>::empty());
    let mut i: usize = 0;
    while i < args.len()
        invariant
            i <= args.len(),
            av == args@.map_values(|s: String| s@),
            init == (None::<usize>, None::<usize>, "twl06.txt"@, Seq::<Seq<char>>::empty()),
            scan_args(av, 0, init) == scan_args(
                av,
                i as int,
                (size, min_length, dict_path@, cells@.map_values(|s: String| s@)),
            ),
        decreases args.len() - i,
    {
        let ghost st: ArgState = (size, min_length, dict_path@, cells@.map_values(|s: String| s@));
        let arg = args[i].as_str();
        assert(av[i as int] == arg@);
        if is_text(arg, "-h") || is_text(arg, "--help") {
            return Err(usage());
        }
        if is_text(arg, "--size") {
            if i + 1 >= args.len() {
                return Err(String::from_str("--size requires a value"));
            }
            assert(av[i + 1] == args@[i + 1]@);
            match parse_positive_usize("--size", args[i + 1].as_str()) {
                Err(e) => {
                    return Err(e);
                },
                Ok(n) => {
                    size = Some(n);
                },
            }
            i += 2;
        } else if is_text(arg, "--min-length") {
            if i + 1 >= args.len() {
                return Err(String::from_str("--min-length requires a value"));
            }
            assert(av[i + 1] == args@[i + 1]@);
            match parse_positive_usize("--min-length", args[i + 1].as_str()) {
                Err(e) => {
                    return Err(e);
                },
                Ok(n) => {
                    min_length = Some(n);
                },
            }
            i += 2;
        } else if is_text(arg, "--dict") {
            if i + 1 >= args.len() {
                return Err(String::from_str("--dict requires a path"));
            }
            assert(av[i + 1] == args@[i + 1]@);
            dict_path = args[i + 1].clone();
            i += 2;
        } else {
            let v = chars_of(arg);
            if v.len() > 0 && v[0] == '-' {
                let mut s = String::from_str("unknown option '");
                push_str(&mut s, arg);
                let rest = with_usage("'");
                push_str(&mut s, rest.as_str());
                assert(s@ =~= "unknown option '"@ + arg@ + "'"@ + "\n\n"@ + usage_text());
                return Err(s);
            }
            let ghost before = cells@;
            cells.push(args[i].clone());
            assert(cells@.map_values(|s: String| s@) =~= before.map_values(|s: String| s@).push(arg@));
            i += 1;
        }
    }
    let ghost fin: ArgState = (size, min_length, dict_path@, cells@.map_values(|s: String| s@));
    assert(scan_args(av, i as int, fin) == Ok::<ArgState, Seq<char>>(fin));
    assert(scan_args(av, 0, init) == Ok::<ArgState, Seq<char>>(fin));
    let size = match size {
        None => {
            return Err(with_usage("--size is required"));
        },
        Some(n) => n,
    };
    let min_length = match min_length {
        None => {
            return Err(with_usage("--min-length is required"));
        },
        Some(n) => n,
    };
    Ok(Config { size, min_length, dict_path, cells })
}

} // verus!
