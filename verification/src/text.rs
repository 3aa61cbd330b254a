//! Text normalization: whitespace handling, literal replacement, trimming and
//! lowercasing, shared by the extractors and the lookup service.

use vstd::prelude::*;
use vstd::string::StrSliceExecFns;

verus! {

/// Whitespace for the purposes of normalization: the Unicode white-space
/// characters — the ASCII blanks and controls, next line, no-break space, the
/// ogham and ideographic spaces, the en/em family, and the line and paragraph
/// separators.
pub open spec fn is_ws(c: char) -> bool {
    let u = c as u32;
    u == 0x20 || (0x09 <= u && u <= 0x0D) || u == 0x85 || u == 0xA0 || u == 0x1680 || (0x2000 <= u
        && u <= 0x200A) || u == 0x2028 || u == 0x2029 || u == 0x202F || u == 0x205F || u == 0x3000
}

fn ws_char(c: char) -> (r: bool)
    ensures
        r == is_ws(c),
{
    let u = c as u32;
    u == 0x20 || (0x09 <= u && u <= 0x0D) || u == 0x85 || u == 0xA0 || u == 0x1680 || (0x2000 <= u
        && u <= 0x200A) || u == 0x2028 || u == 0x2029 || u == 0x202F || u == 0x205F || u == 0x3000
}

/// The whitespace-normalized form of a text: whitespace runs between words
/// become a single blank, and leading and trailing whitespace disappears.
pub open spec fn normalized(s: Seq<char>) -> Seq<char>
    decreases s.len(),
{
    if s.len() == 0 {
        Seq::empty()
    } else {
        let rest = normalized(s.drop_last());
        let c = s.last();
        if is_ws(c) {
            rest
        } else if rest.len() > 0 && is_ws(s[s.len() - 2]) {
            rest + seq![' ', c]
        } else {
            rest.push(c)
        }
    }
}

/// Normalizes the whitespace of a character buffer.
pub fn normalize_chars(s: &Vec<char>) -> (r: Vec<char>)
    ensures
        r@ == normalized(s@),
{
    let mut out: Vec<char> = Vec::new();
    let mut i: usize = 0;
    while i < s.len()
        invariant
            i <= s.len(),
            out@ == normalized(s@.take(i as int)),
        decreases s.len() - i,
    {
        let c = s[i];
        if !ws_char(c) {
            if out.len() > 0 && ws_char(s[i - 1]) {
                out.push(' ');
            }
            out.push(c);
        }
        proof {
            assert(s@.take(i + 1 as int).drop_last() =~= s@.take(i as int));
            assert(s@.take(i + 1 as int).last() == s@[i as int]);
            assert(out@ =~= normalized(s@.take(i + 1 as int)));
        }
        i += 1;
    }
    proof {
        assert(s@.take(s@.len() as int) =~= s@);
    }
    out
}

/// The concatenation of a sequence of text fragments.
pub open spec fn concat_frags(frags: Seq<Seq<char>>) -> Seq<char>
    decreases frags.len(),
{
    if frags.len() == 0 {
        Seq::empty()
    } else {
        concat_frags(frags.drop_last()) + frags.last()
    }
}

/// The views of a sequence of strings.
pub open spec fn views(ss: Seq<String>) -> Seq<Seq<char>> {
    Seq::new(ss.len(), |i: int| ss[i]@)
}

/// What text extraction yields from the descendant text fragments of an
/// element: their concatenation with whitespace runs collapsed to single
/// blanks and outer whitespace removed. Dropping empty fragments first, as the
/// extraction is described, changes nothing: concatenation ignores them.
pub open spec fn stringified(frags: Seq<Seq<char>>) -> Seq<char> {
    normalized(concat_frags(frags))
}

/// The characters of a string slice, as a buffer.
pub fn str_chars(s: &str) -> (r: Vec<char>)
    ensures
        r@ == s@,
{
    let n = s.unicode_len();
    let mut r: Vec<char> = Vec::new();
    let mut i: usize = 0;
    while i < n
        invariant
            n == s@.len(),
            i <= n,
            r@ == s@.take(i as int),
        decreases n - i,
    {
        let c = s.get_char(i);
        r.push(c);
        proof {
            assert(s@.take(i + 1 as int) =~= s@.take(i as int).push(s@[i as int]));
        }
        i += 1;
    }
    proof {
        assert(s@.take(n as int) =~= s@);
    }
    r
}

/// Relies on `String::from_iter` over a vector of characters: the collected
/// string holds exactly those characters, in order.
#[verifier::external_body]
pub fn chars_to_string(v: Vec<char>) -> (r: String)
    ensures
        r@ == v@,
{
    String::from_iter(v)
}

/// Text extraction: concatenates the fragments and normalizes whitespace.
pub fn stringify(frags: &Vec<String>) -> (r: String)
    ensures
        r@ == stringified(views(frags@)),
{
    let mut all: Vec<char> = Vec::new();
    let mut i: usize = 0;
    while i < frags.len()
        invariant
            i <= frags@.len(),
            all@ == concat_frags(views(frags@).take(i as int)),
        decreases frags@.len() - i,
    {
        let mut part = str_chars(frags[i].as_str());
        all.append(&mut part);
        proof {
            assert(views(frags@).take(i + 1 as int).drop_last() =~= views(frags@).take(i as int));
            assert(views(frags@).take(i + 1 as int).last() == frags@[i as int]@);
        }
        i += 1;
    }
    proof {
        assert(views(frags@).take(frags@.len() as int) =~= views(frags@));
    }
    let norm = normalize_chars(&all);
    chars_to_string(norm)
}

/// The text with every occurrence of a literal pattern replaced, scanning
/// left to right over non-overlapping matches.
pub open spec fn replaced(s: Seq<char>, pat: Seq<char>, rep: Seq<char>) -> Seq<char>
    decreases s.len(),
{
    if pat.len() == 0 || s.len() < pat.len() {
        s
    } else if s.take(pat.len() as int) == pat {
        rep + replaced(s.skip(pat.len() as int), pat, rep)
    } else {
        seq![s[0]] + replaced(s.skip(1), pat, rep)
    }
}

/// Whether the pattern occurs in the text at position `i`.
fn matches_at(s: &Vec<char>, i: usize, pat: &Vec<char>) -> (r: bool)
    requires
        i + pat@.len() <= s@.len(),
    ensures
        r == (s@.subrange(i as int, i + pat@.len()) == pat@),
{
    let slen = s.len();
    let mut j: usize = 0;
    while j < pat.len()
        invariant
            slen == s@.len(),
            i + pat@.len() <= s@.len(),
            j <= pat@.len(),
            forall|k: int| 0 <= k < j ==> s@[i + k] == pat@[k],
        decreases pat@.len() - j,
    {
        proof {
            assert(i + j < s@.len());
        }
        if s[i + j] != pat[j] {
            proof {
                assert(s@.subrange(i as int, i + pat@.len())[j as int] != pat@[j as int]);
            }
            return false;
        }
        j += 1;
    }
    proof {
        assert(s@.subrange(i as int, i + pat@.len()) =~= pat@);
    }
    true
}

/// Replaces every occurrence of a literal pattern in a character buffer.
pub fn replace_chars(s: &Vec<char>, pat: &Vec<char>, rep: &Vec<char>) -> (r: Vec<char>)
    requires
        pat@.len() > 0,
    ensures
        r@ == replaced(s@, pat@, rep@),
{
    let mut out: Vec<char> = Vec::new();
    let mut i: usize = 0;
    proof {
        assert(s@.skip(0) =~= s@);
        assert(Seq::<char>::empty() + replaced(s@, pat@, rep@) =~= replaced(s@, pat@, rep@));
    }
    while i < s.len()
        invariant
            pat@.len() > 0,
            i <= s@.len(),
            replaced(s@, pat@, rep@) == out@ + replaced(s@.skip(i as int), pat@, rep@),
        decreases s@.len() - i,
    {
        let ghost rem = s@.skip(i as int);
        if pat.len() <= s.len() - i && matches_at(s, i, pat) {
            proof {
                assert(rem.take(pat@.len() as int) =~= s@.subrange(i as int, i + pat@.len()));
                assert(rem.skip(pat@.len() as int) =~= s@.skip(i + pat@.len()));
            }
            let mut piece = Vec::new();
            let mut j: usize = 0;
            while j < rep.len()
                invariant
                    j <= rep@.len(),
                    piece@ == rep@.take(j as int),
                decreases rep@.len() - j,
            {
                piece.push(rep[j]);
                proof {
                    assert(rep@.take(j + 1 as int) =~= rep@.take(j as int).push(rep@[j as int]));
                }
                j += 1;
            }
            proof {
                assert(piece@ =~= rep@);
                assert(out@ + (rep@ + replaced(s@.skip(i + pat@.len()), pat@, rep@)) =~= (out@
                    + rep@) + replaced(s@.skip(i + pat@.len()), pat@, rep@));
            }
            out.append(&mut piece);
            i += pat.len();
        } else {
            proof {
                if rem.len() >= pat@.len() {
                    assert(rem.take(pat@.len() as int) =~= s@.subrange(i as int, i + pat@.len()));
                    assert(rem.take(pat@.len() as int) != pat@);
                }
                assert(rem.skip(1) =~= s@.skip(i + 1));
                assert(seq![rem[0]] =~= Seq::empty().push(s@[i as int]));
                if rem.len() < pat@.len() {
                    // the remainder is shorter than the pattern: it is kept as
                    // it is, one character at a time
                    assert(replaced(rem, pat@, rep@) == rem);
                    assert(replaced(rem.skip(1), pat@, rep@) == rem.skip(1));
                    assert(rem =~= seq![rem[0]] + rem.skip(1));
                }
                assert(out@ + (seq![rem[0]] + replaced(s@.skip(i + 1), pat@, rep@)) =~= out@.push(
                    s@[i as int]) + replaced(s@.skip(i + 1), pat@, rep@));
            }
            out.push(s[i]);
            i += 1;
        }
    }
    proof {
        assert(s@.skip(s@.len() as int) =~= Seq::<char>::empty());
        assert(out@ + Seq::<char>::empty() =~= out@);
    }
    out
}

/// The text with one leading occurrence of the pattern removed, and the text
/// unchanged when it does not begin with the pattern.
pub open spec fn prefix_stripped(s: Seq<char>, pat: Seq<char>) -> Seq<char> {
    if pat.len() <= s.len() && s.take(pat.len() as int) == pat {
        s.skip(pat.len() as int)
    } else {
        s
    }
}

/// Removes one leading occurrence of the pattern from a character buffer.
pub fn strip_prefix_chars(s: &Vec<char>, pat: &Vec<char>) -> (r: Vec<char>)
    ensures
        r@ == prefix_stripped(s@, pat@),
{
    let start: usize = if pat.len() <= s.len() && matches_at(s, 0, pat) {
        proof {
            assert(s@.subrange(0, pat@.len() as int) =~= s@.take(pat@.len() as int));
        }
        pat.len()
    } else {
        proof {
            if pat@.len() <= s@.len() {
                assert(s@.subrange(0, pat@.len() as int) =~= s@.take(pat@.len() as int));
            }
        }
        0
    };
    let mut r: Vec<char> = Vec::new();
    let mut i: usize = start;
    while i < s.len()
        invariant
            start <= i,
            i <= s@.len(),
            r@ == s@.subrange(start as int, i as int),
        decreases s@.len() - i,
    {
        r.push(s[i]);
        proof {
            assert(s@.subrange(start as int, i + 1 as int) =~= s@.subrange(
                start as int,
                i as int,
            ).push(s@[i as int]));
        }
        i += 1;
    }
    proof {
        if start == 0 {
            assert(s@.subrange(0, s@.len() as int) =~= s@);
        } else {
            assert(s@.subrange(start as int, s@.len() as int) =~= s@.skip(start as int));
        }
    }
    r
}

/// The text with trailing whitespace removed.
pub open spec fn trim_end(s: Seq<char>) -> Seq<char>
    decreases s.len(),
{
    if s.len() == 0 {
        s
    } else if is_ws(s.last()) {
        trim_end(s.drop_last())
    } else {
        s
    }
}

/// The text with leading whitespace removed.
pub open spec fn trim_start(s: Seq<char>) -> Seq<char>
    decreases s.len(),
{
    if s.len() == 0 {
        s
    } else if is_ws(s[0]) {
        trim_start(s.skip(1))
    } else {
        s
    }
}

/// The text with surrounding whitespace removed.
pub open spec fn trimmed(s: Seq<char>) -> Seq<char> {
    trim_start(trim_end(s))
}

/// Removes surrounding whitespace from a character buffer.
pub fn trim_chars(v: Vec<char>) -> (r: Vec<char>)
    ensures
        r@ == trimmed(v@),
{
    let mut v = v;
    let ghost orig = v@;
    while v.len() > 0 && ws_char(v[v.len() - 1])
        invariant
            trim_end(v@) == trim_end(orig),
        decreases v@.len(),
    {
        proof {
            assert(v@.drop_last() =~= v@.take(v@.len() - 1));
        }
        v.pop();
    }
    proof {
        assert(v@ == trim_end(orig));
    }
    let ghost ended = v@;
    while v.len() > 0 && ws_char(v[0])
        invariant
            v@.len() <= ended.len(),
            trim_start(v@) == trim_start(ended),
        decreases v@.len(),
    {
        let ghost before = v@;
        v.remove(0);
        proof {
            assert(v@ =~= before.skip(1));
        }
    }
    proof {
        assert(v@ == trim_start(ended));
    }
    v
}

/// What `str::to_lowercase` returns: a function of the characters alone.
pub uninterp spec fn lower_of(s: Seq<char>) -> Seq<char>;

/// Relies on `str::to_lowercase`: the lowercase equivalent of the string,
/// determined by its characters alone (no locale is consulted), empty for an
/// empty string, and already lowercase — lowercasing maps every character to
/// lowercase or uncased characters, which it leaves alone, so the result is a
/// fixed point of the mapping.
#[verifier::external_body]
pub fn lowercase(s: &str) -> (r: String)
    ensures
        r@ == lower_of(s@),
        s@.len() == 0 ==> r@.len() == 0,
        lower_of(r@) == r@,
{
    s.to_lowercase()
}

} // verus!

