use vstd::prelude::*;

verus! {

use vstd::string::StrSliceExecFns;
use vstd::string::StringExecFns;

/// The whitespace that segment trimming strips: the Unicode white-space
/// characters.
pub open spec fn is_ws(c: char) -> bool {
    let v = c as u32;
    ||| v == 0x09
    ||| v == 0x0A
    ||| v == 0x0B
    ||| v == 0x0C
    ||| v == 0x0D
    ||| v == 0x20
    ||| v == 0x85
    ||| v == 0xA0
    ||| v == 0x1680
    ||| (0x2000 <= v && v <= 0x200A)
    ||| v == 0x2028
    ||| v == 0x2029
    ||| v == 0x202F
    ||| v == 0x205F
    ||| v == 0x3000
}

/// `s` with its leading whitespace stripped.
pub open spec fn trim_start_spec(s: Seq<char>) -> Seq<char>
    decreases s.len(),
{
    if s.len() > 0 && is_ws(s[0]) {
        trim_start_spec(s.drop_first())
    } else {
        s
    }
}

/// `s` with its trailing whitespace stripped.
pub open spec fn trim_end_spec(s: Seq<char>) -> Seq<char>
    decreases s.len(),
{
    if s.len() > 0 && is_ws(s.last()) {
        trim_end_spec(s.drop_last())
    } else {
        s
    }
}

/// `s` with whitespace stripped from both ends.
pub open spec fn trim_spec(s: Seq<char>) -> Seq<char> {
    trim_end_spec(trim_start_spec(s))
}

proof fn lemma_trim_start_skip(s: Seq<char>, a: int)
    requires
        0 <= a <= s.len(),
        forall|k: int| 0 <= k < a ==> is_ws(#[trigger] s[k]),
        a < s.len() ==> !is_ws(s[a]),
    ensures
        trim_start_spec(s) == s.skip(a),
    decreases a,
{
    if a == 0 {
        assert(s.skip(0) =~= s);
    } else {
        assert(s.drop_first() =~= s.skip(1));
        lemma_trim_start_skip(s.skip(1), a - 1);
        assert(s.skip(1).skip(a - 1) =~= s.skip(a));
    }
}

proof fn lemma_trim_end_take(s: Seq<char>, b: int)
    requires
        0 <= b <= s.len(),
        forall|k: int| b <= k < s.len() ==> is_ws(#[trigger] s[k]),
        b > 0 ==> !is_ws(s[b - 1]),
    ensures
        trim_end_spec(s) == s.take(b),
    decreases s.len(),
{
    if s.len() > b {
        lemma_trim_end_take(s.drop_last(), b);
    } else {
        assert(s.take(b) =~= s);
    }
}

fn is_ws_char(c: char) -> (b: bool)
    ensures
        b == is_ws(c),
{
    let v = c as u32;
    v == 0x09 || v == 0x0A || v == 0x0B || v == 0x0C || v == 0x0D || v == 0x20 || v == 0x85 || v
        == 0xA0 || v == 0x1680 || (0x2000 <= v && v <= 0x200A) || v == 0x2028 || v == 0x2029 || v
        == 0x202F || v == 0x205F || v == 0x3000
}

/// `s` without leading and trailing whitespace, as segment canonicalization
/// applies it to every raw segment.
pub fn trim(s: &str) -> (r: String)
    ensures
        r@ == trim_spec(s@),
{
    let n = s.unicode_len();
    let mut a: usize = 0;
    while a < n && is_ws_char(s.get_char(a))
        invariant
            a <= n,
            n == s@.len(),
            forall|k: int| 0 <= k < a ==> is_ws(#[trigger] s@[k]),
        decreases n - a,
    {
        a += 1;
    }
    let mut b: usize = n;
    while b > a && is_ws_char(s.get_char(b - 1))
        invariant
            a <= b <= n,
            n == s@.len(),
            forall|k: int| 0 <= k < a ==> is_ws(#[trigger] s@[k]),
            a < n ==> !is_ws(s@[a as int]),
            forall|k: int| b <= k < n ==> is_ws(#[trigger] s@[k]),
        decreases b,
    {
        b -= 1;
    }
    let r = s.substring_char(a, b).to_owned();
    proof {
        if b == a {
            if a < s@.len() {
                assert(is_ws(s@[a as int]) || b > a);
            }
        }
        lemma_trim_start_skip(s@, a as int);
        let t = s@.skip(a as int);
        assert forall|k: int| b - a <= k < t.len() implies is_ws(#[trigger] t[k]) by {
            assert(t[k] == s@[k + a]);
        }
        if b > a {
            assert(t[b - a - 1] == s@[b - 1]);
        }
        lemma_trim_end_take(t, b - a);
        assert(t.take(b - a) =~= s@.subrange(a as int, b as int));
    }
    r
}

/// Largest position at which `c` occurs in `s`, or -1 when it does not.
pub open spec fn last_index_of(s: Seq<char>, c: char) -> int
    decreases s.len(),
{
    if s.len() == 0 {
        -1
    } else if s.last() == c {
        s.len() - 1
    } else {
        last_index_of(s.drop_last(), c)
    }
}

/// `last_index_of` names an occurrence after every other one, or -1 when
/// there is none.
pub proof fn lemma_last_index_of(s: Seq<char>, c: char)
    ensures
        ({
            let r = last_index_of(s, c);
            if r < 0 {
                forall|k: int| 0 <= k < s.len() ==> (#[trigger] s[k]) != c
            } else {
                &&& 0 <= r < s.len()
                &&& s[r] == c
                &&& forall|k: int| r < k < s.len() ==> (#[trigger] s[k]) != c
            }
        }),
    decreases s.len(),
{
    if s.len() > 0 && s.last() != c {
        lemma_last_index_of(s.drop_last(), c);
        assert forall|k: int| 0 <= k < s.len() - 1 implies s.drop_last()[k] == (
        #[trigger] s[k]) by {}
    }
}

/// Char position of the last occurrence of `chr` in `s`, if any.
pub fn rfind_utf8(s: &str, chr: char) -> (r: Option<usize>)
    ensures
        match r {
            Some(i) => i == last_index_of(s@, chr),
            None => last_index_of(s@, chr) < 0,
        },
{
    let n = s.unicode_len();
    let mut b = n;
    while b > 0
        invariant
            b <= n,
            n == s@.len(),
            forall|k: int| b <= k < n ==> (#[trigger] s@[k]) != chr,
        decreases b,
    {
        if s.get_char(b - 1) == chr {
            proof {
                lemma_last_index_of(s@, chr);
            }
            return Some(b - 1);
        }
        b -= 1;
    }
    proof {
        lemma_last_index_of(s@, chr);
    }
    None
}

/// The extension of a segment: what follows from the last `.` on, the dot
/// included; empty when the segment holds no dot.
pub open spec fn ext_of(s: Seq<char>) -> Seq<char> {
    let i = last_index_of(s, '.');
    if i < 0 {
        Seq::empty()
    } else {
        s.skip(i)
    }
}

/// Extract the extension of a file name, to be carried over onto the
/// generated content reference.
pub fn extract_extension(s: &str) -> (r: String)
    ensures
        r@ == ext_of(s@),
{
    match rfind_utf8(s, '.') {
        Some(i) => {
            proof {
                lemma_last_index_of(s@, '.');
            }
            let n = s.unicode_len();
            s.substring_char(i, n).to_owned()
        },
        None => String::new(),
    }
}

/// One canonicalization step: trim the segment, then drop it, pop the
/// stack, or push it, for `.`/empty, `..`, and a plain name respectively.
pub open spec fn canon_push(stack: Seq<Seq<char>>, seg: Seq<char>) -> Seq<Seq<char>> {
    let t = trim_spec(seg);
    if t.len() == 0 || t == "."@ {
        stack
    } else if t == ".."@ {
        if stack.len() == 0 {
            stack
        } else {
            stack.drop_last()
        }
    } else {
        stack.push(t)
    }
}

/// Canonicalization of `segs` continued on top of an already built `stack`.
pub open spec fn canon_from(stack: Seq<Seq<char>>, segs: Seq<Seq<char>>) -> Seq<Seq<char>>
    decreases segs.len(),
{
    if segs.len() == 0 {
        stack
    } else {
        canon_from(canon_push(stack, segs[0]), segs.drop_first())
    }
}

/// Shell-style normalization of a raw segment sequence: empties and `.`
/// disappear, `..` pops what was pushed before it (and clamps silently at
/// the bottom), anything else stays verbatim, trimmed.
pub open spec fn canon(segs: Seq<Seq<char>>) -> Seq<Seq<char>> {
    canon_from(Seq::empty(), segs)
}

/// Normalize raw path segments as [`canon`] describes; total over every
/// input.
pub fn cannonicalise(comps: &[String]) -> (r: Vec<String>)
    ensures
        r.deep_view() == canon(comps.deep_view()),
{
    let mut stack: Vec<String> = Vec::new();
    proof {
        assert(comps.deep_view().skip(0) =~= comps.deep_view());
        assert(stack.deep_view() =~= Seq::<Seq<char>>::empty());
    }
    let mut i: usize = 0;
    while i < comps.len()
        invariant
            i <= comps@.len(),
            canon_from(stack.deep_view(), comps.deep_view().skip(i as int)) == canon(
                comps.deep_view(),
            ),
        decreases comps@.len() - i,
    {
        let ghost stack0 = stack.deep_view();
        let ghost rest = comps.deep_view().skip(i as int);
        proof {
            assert(rest[0] == comps.deep_view()[i as int]);
            assert(rest.drop_first() =~= comps.deep_view().skip(i as int + 1));
        }
        let t = trim(comps[i].as_str());
        if t.as_str().is_empty() {
        } else if t == String::from_str(".") {
        } else if t == String::from_str("..") {
            stack.pop();
            proof {
                if stack0.len() > 0 {
                    assert(stack.deep_view() =~= stack0.drop_last());
                } else {
                    assert(stack.deep_view() =~= stack0);
                }
            }
        } else {
            stack.push(t);
            proof {
                assert(stack.deep_view() =~= stack0.push(t@));
            }
        }
        i += 1;
    }
    proof {
        assert(comps.deep_view().skip(comps@.len() as int) =~= Seq::<Seq<char>>::empty());
    }
    stack
}

} // verus!
