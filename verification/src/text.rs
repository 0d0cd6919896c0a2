//! Texts: names, numbers written in decimal, and joining.

use vstd::prelude::*;
use vstd::string::{StrSliceExecFns, StringExecFns};

verus! {

/// The characters of each string of a list.
pub open spec fn names(list: Seq<String>) -> Seq<Seq<char>> {
    Seq::new(list.len(), |i: int| list[i]@)
}

/// The decimal digit for a number below ten.
pub open spec fn digit(d: nat) -> char {
    if d == 0 {
        '0'
    } else if d == 1 {
        '1'
    } else if d == 2 {
        '2'
    } else if d == 3 {
        '3'
    } else if d == 4 {
        '4'
    } else if d == 5 {
        '5'
    } else if d == 6 {
        '6'
    } else if d == 7 {
        '7'
    } else if d == 8 {
        '8'
    } else {
        '9'
    }
}

/// A number written in decimal, without leading zeros.
pub open spec fn decimal(n: nat) -> Seq<char>
    decreases n,
{
    if n < 10 {
        seq![digit(n)]
    } else {
        decimal(n / 10).push(digit(n % 10))
    }
}

/// The digit of a number below ten, as a string.
fn digit_str(d: usize) -> (s: &'static str)
    requires
        d < 10,
    ensures
        s@ == seq![digit(d as nat)],
{
    proof {
        reveal_strlit("0");
        reveal_strlit("1");
        reveal_strlit("2");
        reveal_strlit("3");
        reveal_strlit("4");
        reveal_strlit("5");
        reveal_strlit("6");
        reveal_strlit("7");
        reveal_strlit("8");
        reveal_strlit("9");
    }
    let s = if d == 0 {
        "0"
    } else if d == 1 {
        "1"
    } else if d == 2 {
        "2"
    } else if d == 3 {
        "3"
    } else if d == 4 {
        "4"
    } else if d == 5 {
        "5"
    } else if d == 6 {
        "6"
    } else if d == 7 {
        "7"
    } else if d == 8 {
        "8"
    } else {
        "9"
    };
    proof {
        assert(s@ =~= seq![digit(d as nat)]);
    }
    s
}

/// Writes a number in decimal.
pub fn decimal_string(n: usize) -> (s: String)
    ensures
        s@ == decimal(n as nat),
    decreases n,
{
    if n < 10 {
        String::from_str(digit_str(n))
    } else {
        let mut s = decimal_string(n / 10);
        s.append(digit_str(n % 10));
        proof {
            assert(decimal(n as nat) == decimal((n / 10) as nat).push(digit((n % 10) as nat)));
            assert(decimal((n / 10) as nat) + seq![digit((n % 10) as nat)] =~= decimal((n / 10) as nat).push(
                digit((n % 10) as nat),
            ));
        }
        s
    }
}

/// The texts one after the other, with `token` between each two.
pub open spec fn joined(texts: Seq<Seq<char>>, token: Seq<char>) -> Seq<char>
    decreases texts.len(),
{
    if texts.len() == 0 {
        Seq::empty()
    } else if texts.len() == 1 {
        texts[0]
    } else {
        joined(texts.drop_last(), token) + token + texts.last()
    }
}

/// A joined text ends as its last part ends, where that part is not empty.
pub proof fn lemma_joined_last(texts: Seq<Seq<char>>, token: Seq<char>)
    requires
        texts.len() >= 1,
        texts.last().len() > 0,
    ensures
        joined(texts, token).len() > 0,
        joined(texts, token).last() == texts.last().last(),
{
}

/// No character of `s` is `d`.
pub open spec fn free_of(s: Seq<char>, d: char) -> bool {
    forall|i: int| 0 <= i < s.len() ==> #[trigger] s[i] != d
}

/// Joining parts by a token yields no character that neither the parts nor
/// the token hold.
pub proof fn lemma_joined_free(texts: Seq<Seq<char>>, token: Seq<char>, d: char)
    requires
        forall|i: int| 0 <= i < texts.len() ==> free_of(#[trigger] texts[i], d),
        free_of(token, d),
    ensures
        free_of(joined(texts, token), d),
    decreases texts.len(),
{
    if texts.len() > 1 {
        lemma_joined_free(texts.drop_last(), token, d);
        assert(free_of(texts[texts.len() - 1], d));
    } else if texts.len() == 1 {
        assert(free_of(texts[0], d));
    }
}

/// Joins strings, with `token` between each two.
pub fn join_texts(texts: &Vec<String>, token: &str) -> (r: String)
    ensures
        r@ == joined(names(texts@), token@),
{
    let ghost all = names(texts@);
    let mut out = String::new();
    let n = texts.len();
    let mut i: usize = 0;
    while i < n
        invariant
            n == texts@.len(),
            i <= n,
            all == names(texts@),
            out@ == joined(all.take(i as int), token@),
        decreases n - i,
    {
        proof {
            assert(all.take(i + 1).drop_last() =~= all.take(i as int));
            assert(all.take(i + 1).last() == texts@[i as int]@);
            if i == 0 {
                assert(out@ + texts@[i as int]@ =~= texts@[i as int]@);
            }
        }
        if i > 0 {
            out.append(token);
        }
        out.append(texts[i].as_str());
        i += 1;
    }
    proof {
        assert(all.take(n as int) =~= all);
    }
    out
}

/// Tells whether a character is white space: the characters with the
/// Unicode property `White_Space`.
pub open spec fn is_space(c: char) -> bool {
    ||| c == '\u{0009}'
    ||| c == '\u{000A}'
    ||| c == '\u{000B}'
    ||| c == '\u{000C}'
    ||| c == '\u{000D}'
    ||| c == '\u{0020}'
    ||| c == '\u{0085}'
    ||| c == '\u{00A0}'
    ||| c == '\u{1680}'
    ||| c == '\u{2000}'
    ||| c == '\u{2001}'
    ||| c == '\u{2002}'
    ||| c == '\u{2003}'
    ||| c == '\u{2004}'
    ||| c == '\u{2005}'
    ||| c == '\u{2006}'
    ||| c == '\u{2007}'
    ||| c == '\u{2008}'
    ||| c == '\u{2009}'
    ||| c == '\u{200A}'
    ||| c == '\u{2028}'
    ||| c == '\u{2029}'
    ||| c == '\u{202F}'
    ||| c == '\u{205F}'
    ||| c == '\u{3000}'
}

/// Tells whether a character is white space.
pub fn is_whitespace(c: char) -> (r: bool)
    ensures
        r == is_space(c),
{
    c == '\u{0009}' || c == '\u{000A}' || c == '\u{000B}' || c == '\u{000C}' || c == '\u{000D}' || c
        == '\u{0020}' || c == '\u{0085}' || c == '\u{00A0}' || c == '\u{1680}' || c == '\u{2000}' || c
        == '\u{2001}' || c == '\u{2002}' || c == '\u{2003}' || c == '\u{2004}' || c == '\u{2005}' || c
        == '\u{2006}' || c == '\u{2007}' || c == '\u{2008}' || c == '\u{2009}' || c == '\u{200A}' || c
        == '\u{2028}' || c == '\u{2029}' || c == '\u{202F}' || c == '\u{205F}' || c == '\u{3000}'
}

/// The text without the white space at its end.
pub open spec fn trimmed(s: Seq<char>) -> Seq<char>
    decreases s.len(),
{
    if s.len() > 0 && is_space(s.last()) {
        trimmed(s.drop_last())
    } else {
        s
    }
}

/// Trimming leaves a prefix of the text.
pub proof fn lemma_trimmed_prefix(s: Seq<char>)
    ensures
        trimmed(s).len() <= s.len(),
        trimmed(s) == s.take(trimmed(s).len() as int),
    decreases s.len(),
{
    if s.len() > 0 && is_space(s.last()) {
        lemma_trimmed_prefix(s.drop_last());
        assert(s.drop_last().take(trimmed(s).len() as int) =~= s.take(trimmed(s).len() as int));
    } else {
        assert(s.take(s.len() as int) =~= s);
    }
}

/// The text without the white space at its end.
pub fn trim_end<'a>(s: &'a str) -> (r: &'a str)
    ensures
        r@ == trimmed(s@),
{
    let n = s.unicode_len();
    let mut keep: usize = 0;
    let mut idx: usize = 0;
    proof {
        assert(s@.take(0) =~= Seq::<char>::empty());
    }
    for c in it: s.chars()
        invariant
            it.seq() == s@,
            n == s@.len(),
            idx == it.index(),
            keep <= idx <= n,
            trimmed(s@.take(idx as int)) == s@.take(keep as int),
    {
        proof {
            assert(s@.take(idx + 1).drop_last() =~= s@.take(idx as int));
            assert(s@.take(idx + 1).last() == c);
        }
        idx += 1;
        if !is_whitespace(c) {
            keep = idx;
        }
    }
    proof {
        assert(s@.take(n as int) =~= s@);
        assert(s@.take(keep as int) =~= s@.subrange(0, keep as int));
    }
    s.substring_char(0, keep)
}

/// Tells whether `name` ends in `.csv`.
pub open spec fn ends_in_csv(name: Seq<char>) -> bool {
    name.len() >= 4 && name.subrange(name.len() - 4, name.len() as int) == seq!['.', 'c', 's', 'v']
}

/// Tells whether a path names a CSV file: whether it ends in `.csv`.
pub fn is_csv_path(path: &str) -> (r: bool)
    ensures
        r == ends_in_csv(path@),
{
    let n = path.unicode_len();
    if n < 4 {
        return false;
    }
    let ext = path.substring_char(n - 4, n);
    let r = ext.get_char(0) == '.' && ext.get_char(1) == 'c' && ext.get_char(2) == 's' && ext.get_char(3)
        == 'v';
    proof {
        if r {
            assert(ext@ =~= seq!['.', 'c', 's', 'v']);
        }
    }
    r
}

} // verus!
