//! Small verified text utilities shared by the other modules.
use vstd::prelude::*;
use vstd::string::StringSliceAdditionalSpecFns;
use vstd::utf8::{
    decode_utf8, decode_utf8_split, encode_utf8, encode_utf8_decode_utf8, encode_utf8_valid_utf8,
    is_char_boundary, is_char_boundary_start_end_of_seq, valid_utf8,
};

verus! {

/// Collects the characters of `s` into a vector.
pub fn chars_of(s: &str) -> (v: Vec<char>)
    ensures
        v@ == s@,
{
    let mut v: Vec<char> = Vec::new();
    for c in it: s.chars()
        invariant
            v@ == it.seq().take(it.index() as int),
            it.seq() == s@,
    {
        v.push(c);
    }
    v
}

/// Whether two strings hold the same characters.
pub fn same_text(a: &str, b: &str) -> (r: bool)
    ensures
        r == (a@ == b@),
{
    a.to_owned() == b.to_owned()
}

/// Unicode `White_Space`, the property behind `char::is_whitespace` and
/// `str::trim`.
pub open spec fn is_white(c: char) -> bool {
    let u = c as u32;
    ||| 0x09 <= u <= 0x0D
    ||| u == 0x20
    ||| u == 0x85
    ||| u == 0xA0
    ||| u == 0x1680
    ||| 0x2000 <= u <= 0x200A
    ||| u == 0x2028
    ||| u == 0x2029
    ||| u == 0x202F
    ||| u == 0x205F
    ||| u == 0x3000
}

/// A text is blank when every character is white space (so it trims to nothing).
pub open spec fn blank(s: Seq<char>) -> bool {
    forall|i: int| 0 <= i < s.len() ==> is_white(#[trigger] s[i])
}

/// Leading white space removed.
pub open spec fn trim_start(s: Seq<char>) -> Seq<char>
    decreases s.len(),
{
    if s.len() > 0 && is_white(s[0]) {
        trim_start(s.drop_first())
    } else {
        s
    }
}

/// Trailing white space removed.
pub open spec fn trim_end(s: Seq<char>) -> Seq<char>
    decreases s.len(),
{
    if s.len() > 0 && is_white(s.last()) {
        trim_end(s.drop_last())
    } else {
        s
    }
}

/// Leading and trailing white space removed.
pub open spec fn trimmed(s: Seq<char>) -> Seq<char> {
    trim_end(trim_start(s))
}

proof fn lemma_trim_start_shape(s: Seq<char>)
    ensures
        s.len() >= trim_start(s).len(),
        blank(s.take(s.len() - trim_start(s).len())),
        s == s.take(s.len() - trim_start(s).len()) + trim_start(s),
        trim_start(s).len() > 0 ==> !is_white(trim_start(s)[0]),
    decreases s.len(),
{
    if s.len() > 0 && is_white(s[0]) {
        lemma_trim_start_shape(s.drop_first());
        let t = trim_start(s);
        let a = s.take(s.len() - t.len());
        let a1 = s.drop_first().take(s.drop_first().len() - t.len());
        assert(a =~= seq![s[0]] + a1);
        assert forall|i: int| 0 <= i < a.len() implies is_white(#[trigger] a[i]) by {
            if i > 0 {
                assert(a[i] == a1[i - 1]);
            }
        }
        let d = s.drop_first();
        assert(d == a1 + t);
        assert(s =~= seq![s[0]] + d);
        assert(seq![s[0]] + (a1 + t) =~= (seq![s[0]] + a1) + t);
        assert(s =~= a + t);
    } else {
        assert(s.take(0) =~= Seq::<char>::empty());
        assert(s =~= s.take(0) + s);
    }
}

proof fn lemma_trim_end_shape(s: Seq<char>)
    ensures
        s.len() >= trim_end(s).len(),
        blank(s.skip(trim_end(s).len() as int)),
        s == trim_end(s) + s.skip(trim_end(s).len() as int),
        trim_end(s).len() > 0 ==> !is_white(trim_end(s).last()),
    decreases s.len(),
{
    if s.len() > 0 && is_white(s.last()) {
        lemma_trim_end_shape(s.drop_last());
        let t = trim_end(s);
        let b = s.skip(t.len() as int);
        let b1 = s.drop_last().skip(t.len() as int);
        assert(b =~= b1.push(s.last()));
        assert forall|i: int| 0 <= i < b.len() implies is_white(#[trigger] b[i]) by {
            if i < b1.len() {
                assert(b[i] == b1[i]);
            }
        }
        let d = s.drop_last();
        assert(d == t + b1);
        assert(s =~= d.push(s.last()));
        assert((t + b1).push(s.last()) =~= t + b1.push(s.last()));
        assert(s =~= t + b);
    } else {
        assert(s.skip(s.len() as int) =~= Seq::<char>::empty());
        assert(s =~= s + s.skip(s.len() as int));
    }
}

/// Trimming removes exactly the white space at both ends: the text is some
/// white space, the trimmed text, then some white space, and the trimmed
/// text neither starts nor ends with white space.
pub proof fn lemma_trimmed(s: Seq<char>)
    ensures
        exists|a: Seq<char>, b: Seq<char>| blank(a) && blank(b) && s == a + trimmed(s) + b,
        trimmed(s).len() > 0 ==> !is_white(trimmed(s)[0]) && !is_white(trimmed(s).last()),
{
    lemma_trim_start_shape(s);
    let u = trim_start(s);
    lemma_trim_end_shape(u);
    let t = trim_end(u);
    let a = s.take(s.len() - u.len());
    let b = u.skip(t.len() as int);
    assert(s == a + u);
    assert(u == t + b);
    assert(a + (t + b) =~= a + t + b);
    assert(blank(a) && blank(b) && s == a + trimmed(s) + b);
    if t.len() > 0 {
        assert(t[0] == u[0]);
    }
}

/// Whether `c` is Unicode white space.
pub fn is_whitespace(c: char) -> (r: bool)
    ensures
        r == is_white(c),
{
    let u = c as u32;
    (0x09 <= u && u <= 0x0D) || u == 0x20 || u == 0x85 || u == 0xA0 || u == 0x1680 || (0x2000
        <= u && u <= 0x200A) || u == 0x2028 || u == 0x2029 || u == 0x202F || u == 0x205F || u
        == 0x3000
}

/// Whether `s` holds nothing but white space.
pub fn is_blank(s: &str) -> (r: bool)
    ensures
        r == blank(s@),
{
    let cs = chars_of(s);
    let n = cs.len();
    for i in 0..n
        invariant
            n == cs@.len(),
            cs@ == s@,
            forall|j: int| 0 <= j < i ==> is_white(#[trigger] cs@[j]),
    {
        if !is_whitespace(cs[i]) {
            return false;
        }
    }
    true
}

proof fn lemma_trim_start_skip(s: Seq<char>, i: int)
    requires
        0 <= i <= s.len(),
        forall|j: int| 0 <= j < i ==> is_white(#[trigger] s[j]),
    ensures
        trim_start(s) == trim_start(s.subrange(i, s.len() as int)),
    decreases i,
{
    if i > 0 {
        assert(is_white(s[0]));
        let t = s.drop_first();
        assert forall|j: int| 0 <= j < i - 1 implies is_white(#[trigger] t[j]) by {
            assert(t[j] == s[j + 1]);
        }
        lemma_trim_start_skip(t, i - 1);
        assert(t.subrange(i - 1, t.len() as int) =~= s.subrange(i, s.len() as int));
    } else {
        assert(s.subrange(0, s.len() as int) =~= s);
    }
}

proof fn lemma_trim_end_skip(s: Seq<char>, k: int)
    requires
        0 <= k <= s.len(),
        forall|j: int| k <= j < s.len() ==> is_white(#[trigger] s[j]),
    ensures
        trim_end(s) == trim_end(s.subrange(0, k)),
    decreases s.len() - k,
{
    if k < s.len() {
        assert(is_white(s[s.len() - 1]));
        let t = s.drop_last();
        assert forall|j: int| k <= j < t.len() implies is_white(#[trigger] t[j]) by {
            assert(t[j] == s[j]);
        }
        lemma_trim_end_skip(t, k);
        assert(t.subrange(0, k) =~= s.subrange(0, k));
    } else {
        assert(s.subrange(0, k) =~= s);
    }
}

/// `s` with leading and trailing white space removed.
pub fn trim(s: &str) -> (r: String)
    ensures
        r@ == trimmed(s@),
{
    let cs = chars_of(s);
    let n = cs.len();
    let mut a: usize = 0;
    while a < n && is_whitespace(cs[a])
        invariant
            n == cs@.len(),
            a <= n,
            forall|j: int| 0 <= j < a ==> is_white(#[trigger] cs@[j]),
        decreases n - a,
    {
        a += 1;
    }
    proof {
        lemma_trim_start_skip(cs@, a as int);
        let rest = cs@.subrange(a as int, n as int);
        if a < n {
            assert(rest[0] == cs@[a as int]);
        }
        assert(trim_start(rest) == rest);
    }
    let mut b: usize = n;
    while b > a && is_whitespace(cs[b - 1])
        invariant
            n == cs@.len(),
            a <= b <= n,
            forall|j: int| b <= j < n ==> is_white(#[trigger] cs@[j]),
        decreases b,
    {
        b -= 1;
    }
    proof {
        let rest = cs@.subrange(a as int, n as int);
        assert forall|j: int| (b - a) <= j < rest.len() implies is_white(#[trigger] rest[j]) by {
            assert(rest[j] == cs@[a + j]);
        }
        lemma_trim_end_skip(rest, (b - a) as int);
        let core = rest.subrange(0, (b - a) as int);
        assert(core =~= cs@.subrange(a as int, b as int));
        if b > a {
            assert(core.last() == cs@[b - 1]);
        }
        assert(trim_end(core) == core);
    }
    s.substring_char(a, b).to_owned()
}

/// `s` begins with `p`.
pub open spec fn prefixed(s: Seq<char>, p: Seq<char>) -> bool {
    p.len() <= s.len() && s.take(p.len() as int) == p
}

/// `needle` occurs somewhere in `hay`.
pub open spec fn occurs(hay: Seq<char>, needle: Seq<char>) -> bool {
    exists|i: int| 0 <= i <= hay.len() - needle.len() && #[trigger] hay.subrange(i, i + needle.len()) == needle
}

/// A text occurs in another exactly when the other is made of some text,
/// then it, then some text: at the start, in the middle or at the end.
pub proof fn lemma_occurs_means_inside(hay: Seq<char>, needle: Seq<char>)
    ensures
        occurs(hay, needle) <==> exists|a: Seq<char>, b: Seq<char>| hay == a + needle + b,
{
    if occurs(hay, needle) {
        let i = choose|i: int|
            0 <= i <= hay.len() - needle.len() && #[trigger] hay.subrange(i, i + needle.len())
                == needle;
        let a = hay.take(i);
        let b = hay.skip(i + needle.len());
        assert(hay =~= a + needle + b);
    }
    if exists|a: Seq<char>, b: Seq<char>| hay == a + needle + b {
        let (a, b) = choose|a: Seq<char>, b: Seq<char>| hay == a + needle + b;
        assert(hay.subrange(a.len() as int, (a.len() + needle.len()) as int) =~= needle);
    }
}

/// Whether `s` begins with `p`.
pub fn has_prefix(s: &str, p: &str) -> (r: bool)
    ensures
        r == prefixed(s@, p@),
{
    let sc = chars_of(s);
    let pc = chars_of(p);
    if pc.len() > sc.len() {
        return false;
    }
    let n = pc.len();
    for i in 0..n
        invariant
            n == pc@.len(),
            n <= sc@.len(),
            sc@ == s@,
            pc@ == p@,
            forall|j: int| 0 <= j < i ==> #[trigger] sc@[j] == pc@[j],
    {
        if sc[i] != pc[i] {
            proof {
                assert(sc@.take(n as int)[i as int] != pc@[i as int]);
            }
            return false;
        }
    }
    proof {
        assert(sc@.take(n as int) =~= pc@);
    }
    true
}

/// Whether `needle` occurs in `hay`, both given as characters.
pub fn occurs_in(hay: &Vec<char>, needle: &Vec<char>) -> (r: bool)
    ensures
        r == occurs(hay@, needle@),
{
    let h = hay.len();
    let m = needle.len();
    if m > h {
        proof {
            assert forall|i: int| 0 <= i <= hay@.len() - needle@.len() implies #[trigger] hay@.subrange(i, i + needle@.len()) != needle@ by {}
        }
        return false;
    }
    if m == 0 {
        proof {
            assert(hay@.subrange(0int, 0int + needle@.len()) =~= needle@);
        }
        return true;
    }
    let last = h - m;
    let mut i: usize = 0;
    while i <= last
        invariant
            h == hay@.len(),
            m == needle@.len(),
            last == h - m,
            m > 0,
            i <= last + 1,
            forall|k: int| 0 <= k < i ==> #[trigger] hay@.subrange(k, k + m) != needle@,
        decreases last + 1 - i,
    {
        let mut j: usize = 0;
        let mut same = true;
        while j < m
            invariant
                h == hay@.len(),
                m == needle@.len(),
                i <= last,
                last == h - m,
                j <= m,
                same ==> forall|t: int| 0 <= t < j ==> hay@[i + t] == #[trigger] needle@[t],
                !same ==> hay@.subrange(i as int, i + m) != needle@,
            decreases m - j,
        {
            if same && hay[i + j] != needle[j] {
                same = false;
                proof {
                    assert(hay@.subrange(i as int, i + m)[j as int] == hay@[i + j]);
                }
            }
            j += 1;
        }
        if same {
            proof {
                assert(hay@.subrange(i as int, i + m) =~= needle@);
            }
            return true;
        }
        i += 1;
    }
    false
}

/// `s` without its leading `p`, when it begins with `p`.
pub fn strip_prefix_text(s: &str, p: &str) -> (r: Option<String>)
    ensures
        r is Some <==> prefixed(s@, p@),
        r matches Some(x) ==> x@ == s@.skip(p@.len() as int),
{
    if has_prefix(s, p) {
        let from = p.unicode_len();
        let to = s.unicode_len();
        Some(s.substring_char(from, to).to_owned())
    } else {
        None
    }
}

/// The lower-case hex digit for a value below sixteen.
pub open spec fn hex_digit(n: int) -> char {
    if n < 10 {
        (48 + n) as char
    } else {
        (87 + n) as char
    }
}

/// The one-character text of a digit below sixteen.
pub fn digit_text(n: u8) -> (r: &'static str)
    requires
        n < 16,
    ensures
        r@ == seq![hex_digit(n as int)],
{
    match n {
        0 => {
            proof {
                reveal_strlit("0");
            }
            "0"
        },
        1 => {
            proof {
                reveal_strlit("1");
            }
            "1"
        },
        2 => {
            proof {
                reveal_strlit("2");
            }
            "2"
        },
        3 => {
            proof {
                reveal_strlit("3");
            }
            "3"
        },
        4 => {
            proof {
                reveal_strlit("4");
            }
            "4"
        },
        5 => {
            proof {
                reveal_strlit("5");
            }
            "5"
        },
        6 => {
            proof {
                reveal_strlit("6");
            }
            "6"
        },
        7 => {
            proof {
                reveal_strlit("7");
            }
            "7"
        },
        8 => {
            proof {
                reveal_strlit("8");
            }
            "8"
        },
        9 => {
            proof {
                reveal_strlit("9");
            }
            "9"
        },
        10 => {
            proof {
                reveal_strlit("a");
            }
            "a"
        },
        11 => {
            proof {
                reveal_strlit("b");
            }
            "b"
        },
        12 => {
            proof {
                reveal_strlit("c");
            }
            "c"
        },
        13 => {
            proof {
                reveal_strlit("d");
            }
            "d"
        },
        14 => {
            proof {
                reveal_strlit("e");
            }
            "e"
        },
        _ => {
            proof {
                reveal_strlit("f");
            }
            "f"
        },
    }
}

/// Decimal notation of a natural number, without leading zeros.
pub open spec fn decimal(n: nat) -> Seq<char>
    decreases n,
{
    if n < 10 {
        seq![hex_digit(n as int)]
    } else {
        decimal(n / 10) + seq![hex_digit((n % 10) as int)]
    }
}

/// The decimal text of `n`.
pub fn decimal_text(n: usize) -> (r: String)
    ensures
        r@ == decimal(n as nat),
    decreases n,
{
    if n < 10 {
        digit_text(n as u8).to_owned()
    } else {
        let mut s = decimal_text(n / 10);
        s.append(digit_text((n % 10) as u8));
        s
    }
}

/// The lower-case form of a text, as `str::to_lowercase` computes it.
pub uninterp spec fn lowercase(s: Seq<char>) -> Seq<char>;

/// The upper-case form of a text, as `str::to_uppercase` computes it.
pub uninterp spec fn uppercase(s: Seq<char>) -> Seq<char>;

/// `str::to_lowercase`: Unicode lower-case mapping. Its result is named
/// [`lowercase`] and depends on the text alone; the case tables are not
/// stated.
#[verifier::external_body]
pub(crate) fn to_lowercase(s: &str) -> (r: String)
    ensures
        r@ == lowercase(s@),
{
    s.to_lowercase()
}

/// `str::to_uppercase`: Unicode upper-case mapping. Its result is named
/// [`uppercase`] and depends on the text alone; the case tables are not
/// stated.
#[verifier::external_body]
pub(crate) fn to_uppercase(s: &str) -> (r: String)
    ensures
        r@ == uppercase(s@),
{
    s.to_uppercase()
}

/// A finished line: its line feed is gone, and a carriage return just
/// before it is dropped too.
pub open spec fn end_line(cur: Seq<char>) -> Seq<char> {
    if cur.len() > 0 && cur.last() == '\r' {
        cur.drop_last()
    } else {
        cur
    }
}

pub open spec fn line_step(st: (Seq<Seq<char>>, Seq<char>), c: char) -> (Seq<Seq<char>>, Seq<char>) {
    if c == '\n' {
        (st.0.push(end_line(st.1)), Seq::empty())
    } else {
        (st.0, st.1.push(c))
    }
}

pub open spec fn line_scan(s: Seq<char>) -> (Seq<Seq<char>>, Seq<char>)
    decreases s.len(),
{
    if s.len() == 0 {
        (Seq::empty(), Seq::empty())
    } else {
        line_step(line_scan(s.drop_last()), s.last())
    }
}

/// The lines of a text as `str::lines` yields them: split after each line
/// feed, with `\r\n` ends removed; an unterminated last piece is a line when
/// it is not empty.
pub open spec fn lines(s: Seq<char>) -> Seq<Seq<char>> {
    let st = line_scan(s);
    if st.1.len() > 0 {
        st.0.push(st.1)
    } else {
        st.0
    }
}

proof fn lemma_line_scan_plain(a: Seq<char>)
    requires
        forall|i: int| 0 <= i < a.len() ==> a[i] != '\n',
    ensures
        line_scan(a) == (Seq::<Seq<char>>::empty(), a),
    decreases a.len(),
{
    if a.len() > 0 {
        lemma_line_scan_plain(a.drop_last());
        assert(a.drop_last().push(a.last()) =~= a);
    } else {
        assert(a =~= Seq::<char>::empty());
    }
}

proof fn lemma_line_scan_after(a: Seq<char>, rest: Seq<char>)
    requires
        forall|i: int| 0 <= i < a.len() ==> a[i] != '\n',
    ensures
        line_scan(a + seq!['\n'] + rest) == (seq![end_line(a)] + line_scan(rest).0, line_scan(rest).1),
    decreases rest.len(),
{
    let h = a + seq!['\n'];
    if rest.len() == 0 {
        assert(h + rest =~= h);
        lemma_line_scan_plain(a);
        assert(h.drop_last() =~= a);
        assert(seq![end_line(a)] + Seq::<Seq<char>>::empty() =~= seq![end_line(a)]);
        assert(Seq::<Seq<char>>::empty().push(end_line(a)) =~= seq![end_line(a)]);
    } else {
        lemma_line_scan_after(a, rest.drop_last());
        assert((h + rest).drop_last() =~= h + rest.drop_last());
        assert((h + rest).last() == rest.last());
        let p = line_scan(rest.drop_last());
        assert((seq![end_line(a)] + p.0).push(end_line(p.1)) =~= seq![end_line(a)] + p.0.push(
            end_line(p.1),
        ));
    }
}

/// `lines` splits a text after each line feed and drops a `\r` that ends a
/// line: the text up to the first line feed is the first line, and the
/// rest gives the following lines; a text without a line feed is one line
/// when it is not empty.
pub proof fn lemma_lines_split(a: Seq<char>, rest: Seq<char>)
    requires
        forall|i: int| 0 <= i < a.len() ==> a[i] != '\n',
    ensures
        lines(a + seq!['\n'] + rest) == seq![end_line(a)] + lines(rest),
        lines(a) == (if a.len() > 0 {
            seq![a]
        } else {
            Seq::<Seq<char>>::empty()
        }),
        end_line(a) == (if a.len() > 0 && a.last() == '\r' {
            a.drop_last()
        } else {
            a
        }),
{
    lemma_line_scan_after(a, rest);
    lemma_line_scan_plain(a);
    let r = line_scan(rest);
    if r.1.len() > 0 {
        assert((seq![end_line(a)] + r.0).push(r.1) =~= seq![end_line(a)] + r.0.push(r.1));
    }
    if a.len() > 0 {
        assert(Seq::<Seq<char>>::empty().push(a) =~= seq![a]);
    }
}

pub open spec fn texts_of(v: Seq<String>) -> Seq<Seq<char>> {
    v.map_values(|x: String| x@)
}

/// The lines of `s`, following [`lines`].
pub fn lines_of(s: &str) -> (r: Vec<String>)
    ensures
        texts_of(r@) == lines(s@),
{
    let cs = chars_of(s);
    let n = cs.len();
    let mut done: Vec<String> = Vec::new();
    let mut start: usize = 0;
    let mut i: usize = 0;
    proof {
        assert(cs@.take(0) =~= Seq::<char>::empty());
        assert(cs@.subrange(0, 0) =~= Seq::<char>::empty());
        assert(texts_of(done@) =~= Seq::<Seq<char>>::empty());
    }
    while i < n
        invariant
            n == cs@.len(),
            cs@ == s@,
            start <= i <= n,
            line_scan(cs@.take(i as int)) == (texts_of(done@), cs@.subrange(start as int, i as int)),
        decreases n - i,
    {
        proof {
            assert(cs@.take(i + 1).drop_last() =~= cs@.take(i as int));
            assert(cs@.take(i + 1).last() == cs@[i as int]);
        }
        let ghost cur = cs@.subrange(start as int, i as int);
        if cs[i] == '\n' {
            let end = if i > start && cs[i - 1] == '\r' {
                i - 1
            } else {
                i
            };
            let piece = s.substring_char(start, end).to_owned();
            proof {
                if i > start && cs@[i - 1] == '\r' {
                    assert(cur.last() == '\r');
                    assert(cur.drop_last() =~= cs@.subrange(start as int, end as int));
                } else {
                    assert(cur =~= cs@.subrange(start as int, end as int));
                }
                assert(texts_of(done@.push(piece)) =~= texts_of(done@).push(piece@));
            }
            done.push(piece);
            start = i + 1;
            proof {
                assert(cs@.subrange(start as int, (i + 1) as int) =~= Seq::<char>::empty());
            }
        } else {
            proof {
                assert(cs@.subrange(start as int, (i + 1) as int) =~= cur.push(cs@[i as int]));
            }
        }
        i += 1;
    }
    proof {
        assert(cs@.take(n as int) =~= cs@);
    }
    if n > start {
        let piece = s.substring_char(start, n).to_owned();
        proof {
            assert(texts_of(done@.push(piece)) =~= texts_of(done@).push(piece@));
        }
        done.push(piece);
    }
    done
}

/// Texts joined by a separator.
pub open spec fn joined(parts: Seq<Seq<char>>, sep: Seq<char>) -> Seq<char>
    decreases parts.len(),
{
    if parts.len() == 0 {
        Seq::empty()
    } else if parts.len() == 1 {
        parts[0]
    } else {
        joined(parts.drop_last(), sep) + sep + parts.last()
    }
}

/// Joining puts the separator between neighbouring parts and nowhere else:
/// the first part, the separator, then the rest joined.
pub proof fn lemma_joined_front(x: Seq<char>, ps: Seq<Seq<char>>, sep: Seq<char>)
    ensures
        ps.len() > 0 ==> joined(seq![x] + ps, sep) == x + sep + joined(ps, sep),
        ps.len() == 0 ==> joined(seq![x] + ps, sep) == x,
    decreases ps.len(),
{
    if ps.len() == 0 {
        assert(seq![x] + ps =~= seq![x]);
    } else if ps.len() == 1 {
        let q = seq![x] + ps;
        assert(q.drop_last() =~= seq![x]);
        assert(joined(q.drop_last(), sep) == x);
        assert(q.last() == ps[0]);
        assert(joined(ps, sep) == ps[0]);
        assert(joined(q, sep) == joined(q.drop_last(), sep) + sep + q.last());
    } else {
        lemma_joined_front(x, ps.drop_last(), sep);
        let q = seq![x] + ps;
        assert(q.drop_last() =~= seq![x] + ps.drop_last());
        assert(q.last() == ps.last());
        assert(joined(q, sep) == joined(q.drop_last(), sep) + sep + q.last());
        assert(joined(ps, sep) == joined(ps.drop_last(), sep) + sep + ps.last());
        assert(x + sep + joined(ps.drop_last(), sep) + sep + ps.last() =~= x + sep + (joined(
            ps.drop_last(),
            sep,
        ) + sep + ps.last()));
    }
}

/// The texts of `parts` joined by `sep`.
pub fn join_texts(parts: &[String], sep: &str) -> (r: String)
    ensures
        r@ == joined(texts_of(parts@), sep@),
{
    proof {
        reveal_strlit("");
    }
    let mut out = "".to_owned();
    let n = parts.len();
    proof {
        assert(texts_of(parts@).take(0) =~= Seq::<Seq<char>>::empty());
    }
    for i in 0..n
        invariant
            n == parts@.len(),
            out@ == joined(texts_of(parts@).take(i as int), sep@),
    {
        let ghost pre = texts_of(parts@).take(i as int);
        proof {
            assert(texts_of(parts@).take(i + 1).drop_last() =~= pre);
            assert(texts_of(parts@).take(i + 1).last() == parts@[i as int]@);
        }
        if i > 0 {
            out.append(sep);
        }
        out.append(parts[i].as_str());
        proof {
            if i == 0 {
                assert(out@ =~= joined(texts_of(parts@).take(1), sep@));
            }
        }
    }
    proof {
        assert(texts_of(parts@).take(n as int) =~= texts_of(parts@));
    }
    out
}

/// An ASCII decimal digit.
pub open spec fn is_digit(c: char) -> bool {
    '0' <= c <= '9'
}

/// The value of a string of decimal digits.
pub open spec fn digits_value(d: Seq<char>) -> nat
    decreases d.len(),
{
    if d.len() == 0 {
        0
    } else {
        digits_value(d.drop_last()) * 10 + ((d.last() as u32 - 48) as nat)
    }
}

pub open spec fn all_digits(d: Seq<char>) -> bool {
    forall|i: int| 0 <= i < d.len() ==> is_digit(#[trigger] d[i])
}

/// The digits of an unsigned number as `usize::from_str` reads them: an
/// optional leading `+`, then at least one ASCII digit.
pub open spec fn unsigned_digits(s: Seq<char>) -> Option<Seq<char>> {
    let d = if s.len() > 0 && s[0] == '+' {
        s.drop_first()
    } else {
        s
    };
    if d.len() > 0 && all_digits(d) {
        Some(d)
    } else {
        None
    }
}

/// `usize::from_str`: the number written, when it is well formed and fits.
pub open spec fn parsed_usize(s: Seq<char>) -> Option<nat> {
    match unsigned_digits(s) {
        Some(d) => if digits_value(d) <= usize::MAX {
            Some(digits_value(d))
        } else {
            None
        },
        None => None,
    }
}

/// A number written in decimal reads back as itself: its text is a
/// non-empty run of ASCII digits whose value is the number, and
/// `usize::from_str` gives the number back, with or without a leading `+`.
pub proof fn lemma_decimal_reads_back(n: nat)
    ensures
        decimal(n).len() > 0,
        all_digits(decimal(n)),
        digits_value(decimal(n)) == n,
        n <= usize::MAX ==> parsed_usize(decimal(n)) == Some(n),
        n <= usize::MAX ==> parsed_usize(seq!['+'] + decimal(n)) == Some(n),
    decreases n,
{
    if n >= 10 {
        lemma_decimal_reads_back(n / 10);
        let d = decimal(n);
        let p = decimal(n / 10);
        assert(d.drop_last() =~= p);
        assert forall|i: int| 0 <= i < d.len() implies is_digit(#[trigger] d[i]) by {
            if i < p.len() {
                assert(d[i] == p[i]);
            }
        }
        assert(((d.last() as u32 - 48) as nat) == n % 10);
        assert(digits_value(d) == digits_value(p) * 10 + n % 10);
        assert((n / 10) * 10 + n % 10 == n) by (nonlinear_arith);
        assert(digits_value(d) == n);
    } else {
        let d = decimal(n);
        assert(d.drop_last() =~= Seq::<char>::empty());
        assert(d.last() == hex_digit(n as int));
        assert((d.last() as u32) == 48 + n);
        assert(digits_value(d.drop_last()) == 0);
        assert(digits_value(d) == n);
    }
    let d = decimal(n);
    assert(d[0] != '+') by {
        assert(is_digit(d[0]));
    }
    assert((seq!['+'] + d).drop_first() =~= d);
}

proof fn lemma_digits_value_grows(d: Seq<char>, k: int)
    requires
        0 <= k <= d.len(),
        all_digits(d),
    ensures
        digits_value(d.take(k)) <= digits_value(d),
    decreases d.len() - k,
{
    if k < d.len() {
        lemma_digits_value_grows(d, k + 1);
        assert(d.take(k + 1).drop_last() =~= d.take(k));
        assert(is_digit(d[k]));
    } else {
        assert(d.take(k) =~= d);
    }
}

/// Reads an unsigned number the way `usize::from_str` does.
pub fn parse_usize(s: &str) -> (r: Option<usize>)
    ensures
        match r {
            Some(v) => parsed_usize(s@) == Some(v as nat),
            None => parsed_usize(s@) is None,
        },
{
    let cs = chars_of(s);
    let n = cs.len();
    let from: usize = if n > 0 && cs[0] == '+' {
        1
    } else {
        0
    };
    let ghost d = cs@.subrange(from as int, n as int);
    proof {
        if n > 0 && cs@[0] == '+' {
            assert(d =~= s@.drop_first());
        } else {
            assert(d =~= s@);
        }
    }
    if from >= n {
        return None;
    }
    let mut acc: usize = 0;
    let mut i: usize = from;
    proof {
        assert(d.take(0) =~= Seq::<char>::empty());
    }
    while i < n
        invariant
            n == cs@.len(),
            from <= i <= n,
            d == cs@.subrange(from as int, n as int),
            d == (if s@.len() > 0 && s@[0] == '+' {
                s@.drop_first()
            } else {
                s@
            }),
            forall|j: int| 0 <= j < i - from ==> is_digit(#[trigger] d[j]),
            acc as nat == digits_value(d.take(i - from)),
        decreases n - i,
    {
        let c = cs[i];
        proof {
            assert(d[i - from] == c);
        }
        if !('0' <= c && c <= '9') {
            proof {
                assert(!all_digits(d));
            }
            return None;
        }
        let v = (c as u32 - 48) as usize;
        proof {
            assert(d.take(i + 1 - from).drop_last() =~= d.take(i - from));
            assert(d.take(i + 1 - from).last() == c);
        }
        match acc.checked_mul(10) {
            Some(m) => match m.checked_add(v) {
                Some(x) => {
                    acc = x;
                },
                None => {
                    proof {
                        if all_digits(d) {
                            lemma_digits_value_grows(d, i + 1 - from);
                        }
                    }
                    return None;
                },
            },
            None => {
                proof {
                    if all_digits(d) {
                        lemma_digits_value_grows(d, i + 1 - from);
                    }
                }
                return None;
            },
        }
        i += 1;
    }
    proof {
        assert(d.take(n - from) =~= d);
    }
    Some(acc)
}

// --- cutting text at a byte cap --------------------------------------------

/// The largest index at or below `cap` where the UTF-8 text `bytes` may be
/// cut: its length when it is no longer than `cap`, otherwise the last
/// character boundary not past `cap`.
pub open spec fn floor_boundary(bytes: Seq<u8>, cap: int) -> int
    decreases cap,
{
    if cap <= 0 {
        0
    } else if cap >= bytes.len() {
        bytes.len() as int
    } else if is_char_boundary(bytes, cap) {
        cap
    } else {
        floor_boundary(bytes, cap - 1)
    }
}

/// The cut point is a character boundary within the cap, and no boundary
/// lies between it and the cap: the kept prefix is the longest one that
/// fits.
pub proof fn lemma_floor_boundary(bytes: Seq<u8>, cap: int)
    requires
        valid_utf8(bytes),
        cap >= 0,
    ensures
        0 <= floor_boundary(bytes, cap) <= cap,
        floor_boundary(bytes, cap) <= bytes.len(),
        is_char_boundary(bytes, floor_boundary(bytes, cap)),
        forall|j: int|
            floor_boundary(bytes, cap) < j <= cap && j <= bytes.len() ==> !#[trigger] is_char_boundary(
                bytes,
                j,
            ),
    decreases cap,
{
    is_char_boundary_start_end_of_seq(bytes);
    if cap > 0 && cap < bytes.len() && !is_char_boundary(bytes, cap) {
        lemma_floor_boundary(bytes, cap - 1);
    }
}

/// The longest prefix of `text` that holds at most `cap` bytes and ends on a
/// character boundary.
pub fn cut_at_boundary(text: &str, cap: usize) -> (r: &str)
    requires
        text.spec_bytes().len() <= usize::MAX,
    ensures
        r.spec_bytes() == text.spec_bytes().take(floor_boundary(text.spec_bytes(), cap as int)),
        r@ == text@.take(r@.len() as int),
{
    let ghost bytes = text.spec_bytes();
    proof {
        encode_utf8_valid_utf8(text@);
        is_char_boundary_start_end_of_seq(bytes);
    }
    let n = text.len();
    let k: usize = if cap >= n {
        n
    } else {
        let mut k = cap;
        while k > 0 && !text.is_char_boundary(k)
            invariant
                k <= cap < n,
                n == bytes.len(),
                bytes == text.spec_bytes(),
                floor_boundary(bytes, cap as int) == floor_boundary(bytes, k as int),
            decreases k,
        {
            k -= 1;
        }
        k
    };
    proof {
        assert(k == floor_boundary(bytes, cap as int));
        assert(is_char_boundary(bytes, k as int));
    }
    let (head, _) = text.split_at(k);
    proof {
        encode_utf8_decode_utf8(text@);
        encode_utf8_decode_utf8(head@);
        decode_utf8_split(bytes, k as int);
        assert(bytes.subrange(0, k as int) =~= bytes.take(k as int));
        assert(decode_utf8(head.spec_bytes()) == head@);
        assert(text@ =~= head@ + decode_utf8(bytes.subrange(k as int, bytes.len() as int)));
        assert(text@.take(head@.len() as int) =~= head@);
    }
    head
}

} // verus!
