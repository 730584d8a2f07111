//! Text as a sequence of characters: the small vocabulary of splitting,
//! trimming and searching that the rest of the library is stated in, with an
//! executable function beside each definition.

use vstd::prelude::*;
use vstd::string::*;
use vstd::utf8::*;

pub mod laws;

verus! {

/// `String::push` appends one character to the end of the string.
pub assume_specification[ String::push ](s: &mut String, c: char)
    ensures
        final(s)@ == old(s)@.push(c),
;

/// The contents of a list of strings.
pub open spec fn views(s: Seq<String>) -> Seq<Seq<char>> {
    s.map_values(|x: String| x@)
}

/// What an optional string holds.
pub open spec fn opt_view(s: Option<String>) -> Option<Seq<char>> {
    match s {
        Some(x) => Some(x@),
        None => None,
    }
}

/// Length in bytes of the UTF-8 encoding.
pub open spec fn byte_len(s: Seq<char>) -> nat {
    encode_utf8(s).len()
}

/// The pieces of `s` between occurrences of `sep`, empty ones kept.
pub open spec fn split(s: Seq<char>, sep: char) -> Seq<Seq<char>>
    decreases s.len(),
{
    if s.len() == 0 {
        seq![Seq::<char>::empty()]
    } else {
        let front = split(s.drop_last(), sep);
        if s.last() == sep {
            front.push(Seq::<char>::empty())
        } else {
            front.drop_last().push(front.last().push(s.last()))
        }
    }
}

/// The parts in order, with `sep` between neighbours.
pub open spec fn join(parts: Seq<Seq<char>>, sep: Seq<char>) -> Seq<char>
    decreases parts.len(),
{
    if parts.len() == 0 {
        Seq::empty()
    } else if parts.len() == 1 {
        parts[0]
    } else {
        join(parts.drop_last(), sep) + sep + parts.last()
    }
}

/// Unicode `White_Space`.
pub open spec fn is_white(c: char) -> bool {
    let u = c as u32;
    ||| 0x09 <= u <= 0x0d
    ||| u == 0x20
    ||| u == 0x85
    ||| u == 0xa0
    ||| u == 0x1680
    ||| 0x2000 <= u <= 0x200a
    ||| u == 0x2028
    ||| u == 0x2029
    ||| u == 0x202f
    ||| u == 0x205f
    ||| u == 0x3000
}

/// A class of characters: those listed, and white space where asked for.
pub open spec fn in_class(c: char, white: bool, listed: Seq<char>) -> bool {
    (white && is_white(c)) || listed.contains(c)
}

/// `s` without the characters of a class at its front.
pub open spec fn trim_front(s: Seq<char>, white: bool, listed: Seq<char>) -> Seq<char>
    decreases s.len(),
{
    if s.len() > 0 && in_class(s[0], white, listed) {
        trim_front(s.drop_first(), white, listed)
    } else {
        s
    }
}

/// `s` without the characters of a class at its back.
pub open spec fn trim_back(s: Seq<char>, white: bool, listed: Seq<char>) -> Seq<char>
    decreases s.len(),
{
    if s.len() > 0 && in_class(s.last(), white, listed) {
        trim_back(s.drop_last(), white, listed)
    } else {
        s
    }
}

/// `s` without white space at either end.
pub open spec fn trimmed(s: Seq<char>) -> Seq<char> {
    trim_back(trim_front(s, true, Seq::empty()), true, Seq::empty())
}

/// `s` without repetitions of `p` at its front.
pub open spec fn strip_front_all(s: Seq<char>, p: Seq<char>) -> Seq<char>
    decreases s.len(),
{
    if p.len() > 0 && has_prefix(s, p) {
        strip_front_all(s.skip(p.len() as int), p)
    } else {
        s
    }
}

/// `s` without repetitions of `p` at its back.
pub open spec fn strip_back_all(s: Seq<char>, p: Seq<char>) -> Seq<char>
    decreases s.len(),
{
    if p.len() > 0 && has_suffix(s, p) {
        strip_back_all(s.take(s.len() - p.len()), p)
    } else {
        s
    }
}

/// `s` starts with `p`.
pub open spec fn has_prefix(s: Seq<char>, p: Seq<char>) -> bool {
    p.len() <= s.len() && s.take(p.len() as int) == p
}

/// `s` ends with `p`.
pub open spec fn has_suffix(s: Seq<char>, p: Seq<char>) -> bool {
    p.len() <= s.len() && s.skip(s.len() - p.len()) == p
}

/// `p` stands in `s` at index `i`.
pub open spec fn occurs_at(s: Seq<char>, p: Seq<char>, i: int) -> bool {
    0 <= i && i + p.len() <= s.len() && s.subrange(i, i + p.len()) == p
}

/// `p` stands somewhere in `s`.
pub open spec fn has_infix(s: Seq<char>, p: Seq<char>) -> bool {
    exists|i: int| #[trigger] occurs_at(s, p, i)
}

/// Index of the first occurrence of `p` in `s` at or after `from`.
pub open spec fn find_from(s: Seq<char>, p: Seq<char>, from: int) -> Option<int>
    decreases s.len() + 1 - from,
{
    if from < 0 || from + p.len() > s.len() {
        None
    } else if occurs_at(s, p, from) {
        Some(from)
    } else {
        find_from(s, p, from + 1)
    }
}

/// The pieces of `s` between occurrences of the text `p`, taken from the left.
pub open spec fn split_text(s: Seq<char>, p: Seq<char>) -> Seq<Seq<char>>
    decreases s.len(),
{
    match find_from(s, p, 0) {
        Some(i) => if 0 <= i && i + p.len() <= s.len() && p.len() > 0 {
            seq![s.take(i)] + split_text(s.skip(i + p.len()), p)
        } else {
            seq![s]
        },
        None => seq![s],
    }
}

/// Index of the first `c` in `s`.
pub open spec fn first_index(s: Seq<char>, c: char) -> Option<int>
    decreases s.len(),
{
    if s.len() == 0 {
        None
    } else {
        match first_index(s.drop_last(), c) {
            Some(i) => Some(i),
            None => if s.last() == c { Some(s.len() - 1) } else { None },
        }
    }
}

/// Index of the last `c` in `s`.
pub open spec fn last_index(s: Seq<char>, c: char) -> Option<int>
    decreases s.len(),
{
    if s.len() == 0 {
        None
    } else if s.last() == c {
        Some(s.len() - 1)
    } else {
        last_index(s.drop_last(), c)
    }
}

/// What stands behind the last character of a class.
pub open spec fn after_last(s: Seq<char>, listed: Seq<char>) -> Seq<char>
    decreases s.len(),
{
    if s.len() == 0 || listed.contains(s.last()) {
        Seq::empty()
    } else {
        after_last(s.drop_last(), listed).push(s.last())
    }
}

/// A line without the carriage return of its line ending.
pub open spec fn without_cr(s: Seq<char>) -> Seq<char> {
    if s.len() > 0 && s.last() == '\r' {
        s.drop_last()
    } else {
        s
    }
}

/// The lines of a text, without their endings. What stands behind the last
/// line feed is a line too, unless it is empty.
pub open spec fn lines(s: Seq<char>) -> Seq<Seq<char>> {
    let p = split(s, '\n');
    let front = p.drop_last().map_values(|l: Seq<char>| without_cr(l));
    if p.last().len() == 0 {
        front
    } else {
        front.push(p.last())
    }
}

/// ASCII letters in lower case, everything else as it is.
pub open spec fn lower_char(c: char) -> char {
    if 'A' <= c && c <= 'Z' {
        ((c as u32 + 32) as u32) as char
    } else {
        c
    }
}

pub open spec fn lower(s: Seq<char>) -> Seq<char> {
    s.map_values(|c: char| lower_char(c))
}

/// `s` with every `a` replaced by `b`.
pub open spec fn swap_char(s: Seq<char>, a: char, b: char) -> Seq<char> {
    s.map_values(|c: char| if c == a { b } else { c })
}

/// Lexicographic order by character.
pub open spec fn text_le(a: Seq<char>, b: Seq<char>) -> bool
    decreases a.len(),
{
    if a.len() == 0 {
        true
    } else if b.len() == 0 {
        false
    } else if a[0] == b[0] {
        text_le(a.drop_first(), b.drop_first())
    } else {
        a[0] < b[0]
    }
}

/// The decimal digit `d`.
pub open spec fn digit(d: int) -> char {
    (('0' as u32 + d) as u32) as char
}

/// Decimal notation of a natural number.
pub open spec fn decimal(n: nat) -> Seq<char>
    decreases n,
{
    if n < 10 {
        seq![digit(n as int)]
    } else {
        decimal(n / 10).push(digit((n % 10) as int))
    }
}

/// `n` times the digit zero.
pub open spec fn zeros(n: int) -> Seq<char> {
    Seq::new(if n > 0 { n as nat } else { 0 }, |i: int| '0')
}

/// Decimal notation of an integer, filled up with zeros behind the sign to
/// `width` characters.
pub open spec fn decimal_padded(n: int, width: int) -> Seq<char> {
    if n < 0 {
        let d = decimal((-n) as nat);
        seq!['-'] + zeros(width - 1 - d.len()) + d
    } else {
        let d = decimal(n as nat);
        zeros(width - d.len()) + d
    }
}

/// Decimal notation of an integer.
pub open spec fn decimal_int(n: int) -> Seq<char> {
    decimal_padded(n, 0)
}

/// A copy of a list of texts.
pub fn copy_texts(v: &Vec<String>) -> (r: Vec<String>)
    ensures
        views(r@) == views(v@),
{
    let mut out: Vec<String> = Vec::new();
    let mut i: usize = 0;
    while i < v.len()
        invariant
            i <= v@.len(),
            out@.len() == i,
            forall|k: int| 0 <= k < i ==> (#[trigger] out@[k])@ == v@[k]@,
        decreases v@.len() - i,
    {
        out.push(v[i].clone());
        i += 1;
    }
    assert(views(out@) =~= views(v@));
    out
}

// ---- conversions ----

pub proof fn lemma_views_push(s: Seq<String>, x: String)
    ensures
        views(s.push(x)) == views(s).push(x@),
{
    assert(views(s.push(x)) =~= views(s).push(x@));
}

/// The characters of a string.
pub fn to_chars(s: &str) -> (r: Vec<char>)
    ensures
        r@ == s@,
{
    let mut out: Vec<char> = Vec::new();
    for c in it: s.chars()
        invariant
            out@ == it.seq().take(it.index() as int),
            it.seq() == s@,
    {
        out.push(c);
    }
    out
}

/// The string made of `v[from..to]`.
pub fn text_of(v: &Vec<char>, from: usize, to: usize) -> (r: String)
    requires
        from <= to <= v@.len(),
    ensures
        r@ == v@.subrange(from as int, to as int),
{
    let mut out = String::new();
    let mut i: usize = from;
    while i < to
        invariant
            from <= i <= to <= v@.len(),
            out@ == v@.subrange(from as int, i as int),
        decreases to - i,
    {
        out.push(v[i]);
        i += 1;
        assert(v@.subrange(from as int, i as int) =~= v@.subrange(from as int, i - 1).push(v@[i - 1]));
    }
    out
}

/// The string made of all of `v`.
pub fn text_all(v: &Vec<char>) -> (r: String)
    ensures
        r@ == v@,
{
    let r = text_of(v, 0, v.len());
    assert(v@.subrange(0, v@.len() as int) =~= v@);
    r
}

/// Equality of two texts.
pub fn eq_str(a: &str, b: &str) -> (r: bool)
    ensures
        r == (a@ == b@),
{
    let x = a.as_bytes();
    let y = b.as_bytes();
    proof {
        encode_utf8_decode_utf8(a@);
        encode_utf8_decode_utf8(b@);
    }
    if x.len() != y.len() {
        return false;
    }
    let mut i: usize = 0;
    while i < x.len()
        invariant
            i <= x@.len(),
            x@.len() == y@.len(),
            forall|k: int| 0 <= k < i ==> x@[k] == y@[k],
            x@ == encode_utf8(a@),
            y@ == encode_utf8(b@),
        decreases x@.len() - i,
    {
        if x[i] != y[i] {
            assert(x@[i as int] != y@[i as int]);
            return false;
        }
        i += 1;
    }
    assert(x@ =~= y@);
    true
}

/// Length in bytes.
pub fn bytes_in(s: &str) -> (r: usize)
    ensures
        r == byte_len(s@),
{
    s.as_bytes().len()
}

/// The texts one after another.
pub fn cat2(a: &str, b: &str) -> (r: String)
    ensures
        r@ == a@ + b@,
{
    let mut out = a.to_owned();
    out.append(b);
    out
}

pub fn cat3(a: &str, b: &str, c: &str) -> (r: String)
    ensures
        r@ == a@ + b@ + c@,
{
    let mut out = a.to_owned();
    out.append(b);
    out.append(c);
    out
}

/// `s[from..to]`, counted in characters.
pub fn sub_text(s: &str, from: usize, to: usize) -> (r: String)
    requires
        from <= to <= s@.len(),
    ensures
        r@ == s@.subrange(from as int, to as int),
{
    s.substring_char(from, to).to_owned()
}

/// `s[from..]`, counted in characters.
pub fn tail_text(s: &str, from: usize) -> (r: String)
    requires
        from <= s@.len(),
    ensures
        r@ == s@.skip(from as int),
{
    let n = s.unicode_len();
    let r = sub_text(s, from, n);
    assert(s@.subrange(from as int, n as int) =~= s@.skip(from as int));
    r
}

/// `s[..to]`, counted in characters.
pub fn head_text(s: &str, to: usize) -> (r: String)
    requires
        to <= s@.len(),
    ensures
        r@ == s@.take(to as int),
{
    let r = sub_text(s, 0, to);
    assert(s@.subrange(0, to as int) =~= s@.take(to as int));
    r
}

// ---- splitting and joining ----

pub proof fn lemma_split_len(s: Seq<char>, sep: char)
    ensures
        split(s, sep).len() >= 1,
    decreases s.len(),
{
    if s.len() > 0 {
        lemma_split_len(s.drop_last(), sep);
    }
}

/// A piece is no longer than the whole and holds no separator.
pub proof fn lemma_split_piece(s: Seq<char>, sep: char, i: int)
    requires
        0 <= i < split(s, sep).len(),
    ensures
        split(s, sep)[i].len() <= s.len(),
        !split(s, sep)[i].contains(sep),
    decreases s.len(),
{
    lemma_split_len(s, sep);
    if s.len() > 0 {
        let f = split(s.drop_last(), sep);
        lemma_split_len(s.drop_last(), sep);
        if s.last() == sep {
            if i < f.len() {
                lemma_split_piece(s.drop_last(), sep, i);
            }
        } else if i < f.len() - 1 {
            lemma_split_piece(s.drop_last(), sep, i);
        } else {
            lemma_split_piece(s.drop_last(), sep, f.len() - 1);
            let p = f.last().push(s.last());
            assert forall|k: int| 0 <= k < p.len() implies p[k] != sep by {
                if k < f.last().len() {
                    assert(f.last().contains(f.last()[k]));
                }
            }
        }
    }
}

proof fn lemma_trim_front_len(s: Seq<char>, white: bool, listed: Seq<char>)
    ensures
        trim_front(s, white, listed).len() <= s.len(),
    decreases s.len(),
{
    if s.len() > 0 {
        lemma_trim_front_len(s.drop_first(), white, listed);
    }
}

proof fn lemma_trim_back_len(s: Seq<char>, white: bool, listed: Seq<char>)
    ensures
        trim_back(s, white, listed).len() <= s.len(),
    decreases s.len(),
{
    if s.len() > 0 {
        lemma_trim_back_len(s.drop_last(), white, listed);
    }
}

/// Trimming adds nothing.
pub proof fn lemma_trimmed_len(s: Seq<char>)
    ensures
        trimmed(s).len() <= s.len(),
{
    lemma_trim_front_len(s, true, Seq::empty());
    lemma_trim_back_len(trim_front(s, true, Seq::empty()), true, Seq::empty());
}

/// What stands behind the last separator is the last piece.
pub proof fn lemma_split_append(a: Seq<char>, sep: char, b: Seq<char>)
    requires
        !b.contains(sep),
    ensures
        split(a.push(sep) + b, sep) == split(a, sep).push(b),
    decreases b.len(),
{
    let t = a.push(sep) + b;
    if b.len() == 0 {
        assert(t =~= a.push(sep));
        assert(t.drop_last() =~= a);
        assert(b =~= Seq::<char>::empty());
    } else {
        assert forall|k: int| 0 <= k < b.drop_last().len() implies b.drop_last()[k] != sep by {
            assert(b.contains(b[k]));
        }
        lemma_split_append(a, sep, b.drop_last());
        assert(t.drop_last() =~= a.push(sep) + b.drop_last());
        assert(b.contains(b[b.len() - 1]));
        assert(b.drop_last().push(b.last()) =~= b);
        let f = split(a, sep).push(b.drop_last());
        assert(f.drop_last().push(f.last().push(b.last())) =~= split(a, sep).push(b));
    }
}

pub proof fn lemma_split_plain(b: Seq<char>, sep: char)
    requires
        !b.contains(sep),
    ensures
        split(b, sep) == seq![b],
    decreases b.len(),
{
    if b.len() == 0 {
        assert(b =~= Seq::<char>::empty());
    } else {
        assert forall|k: int| 0 <= k < b.drop_last().len() implies b.drop_last()[k] != sep by {
            assert(b.contains(b[k]));
        }
        lemma_split_plain(b.drop_last(), sep);
        assert(b.contains(b[b.len() - 1]));
        assert(b.drop_last().push(b.last()) =~= b);
        assert(split(b, sep) =~= seq![b]);
    }
}

/// Law: splitting takes apart what joining put together, where the parts hold
/// no separator.
pub proof fn split_inverts_join(parts: Seq<Seq<char>>, sep: char)
    requires
        parts.len() > 0,
        forall|i: int| 0 <= i < parts.len() ==> !(#[trigger] parts[i]).contains(sep),
    ensures
        split(join(parts, seq![sep]), sep) == parts,
    decreases parts.len(),
{
    if parts.len() == 1 {
        lemma_split_plain(parts[0], sep);
        assert(parts =~= seq![parts[0]]);
    } else {
        let f = parts.drop_last();
        assert forall|i: int| 0 <= i < f.len() implies !(#[trigger] f[i]).contains(sep) by {
            assert(f[i] == parts[i]);
        }
        split_inverts_join(f, sep);
        assert(!parts[parts.len() - 1].contains(sep));
        let a = join(f, seq![sep]);
        assert(a + seq![sep] + parts.last() =~= a.push(sep) + parts.last());
        lemma_split_append(a, sep, parts.last());
        assert(f.push(parts.last()) =~= parts);
    }
}

/// Law: joining puts together what splitting took apart.
pub proof fn join_inverts_split(s: Seq<char>, sep: char)
    ensures
        join(split(s, sep), seq![sep]) == s,
    decreases s.len(),
{
    if s.len() > 0 {
        let f = split(s.drop_last(), sep);
        lemma_split_len(s.drop_last(), sep);
        join_inverts_split(s.drop_last(), sep);
        let p = split(s, sep);
        if s.last() == sep {
            assert(p.drop_last() =~= f);
            assert(join(f, seq![sep]) + seq![sep] + Seq::<char>::empty() =~= s);
        } else {
            assert(p.drop_last() =~= f.drop_last());
            if f.len() == 1 {
                assert(f.last().push(s.last()) =~= s);
            } else {
                let a = join(f.drop_last(), seq![sep]);
                assert(a + seq![sep] + f.last().push(s.last()) =~= (a + seq![sep] + f.last()).push(s.last()));
                assert(s.drop_last().push(s.last()) =~= s);
            }
        }
    }
}

/// The pieces between separators.
pub fn split_on(s: &str, sep: char) -> (r: Vec<String>)
    ensures
        views(r@) == split(s@, sep),
        r@.len() >= 1,
{
    let v = to_chars(s);
    let mut out: Vec<String> = Vec::new();
    let mut cur = String::new();
    let mut i: usize = 0;
    assert(s@.take(0) =~= Seq::<char>::empty());
    assert(views(out@).push(cur@) =~= seq![Seq::<char>::empty()]);
    while i < v.len()
        invariant
            i <= v@.len(),
            v@ == s@,
            views(out@).push(cur@) == split(s@.take(i as int), sep),
        decreases v@.len() - i,
    {
        let c = v[i];
        assert(s@.take(i + 1).drop_last() =~= s@.take(i as int));
        let ghost before = views(out@).push(cur@);
        if c == sep {
            let ghost o = out@;
            let ghost cc = cur;
            out.push(cur);
            proof {
                lemma_views_push(o, cc);
            }
            cur = String::new();
            assert(views(out@).push(cur@) =~= before.push(Seq::<char>::empty()));
        } else {
            cur.push(c);
            assert(views(out@).push(cur@) =~= before.drop_last().push(before.last().push(c)));
        }
        i += 1;
    }
    assert(s@.take(i as int) =~= s@);
    proof {
        lemma_views_push(out@, cur);
    }
    out.push(cur);
    out
}

/// The parts with a separator between neighbours.
pub fn join_with(parts: &Vec<String>, sep: &str) -> (r: String)
    ensures
        r@ == join(views(parts@), sep@),
{
    let mut out = String::new();
    let mut i: usize = 0;
    let ghost p = views(parts@);
    assert(p.take(0) =~= Seq::<Seq<char>>::empty());
    while i < parts.len()
        invariant
            i <= parts@.len(),
            p == views(parts@),
            out@ == join(p.take(i as int), sep@),
        decreases parts@.len() - i,
    {
        assert(p.take(i + 1).drop_last() =~= p.take(i as int));
        if i > 0 {
            out.append(sep);
        }
        out.append(parts[i].as_str());
        i += 1;
        assert(out@ =~= join(p.take(i as int), sep@));
    }
    assert(p.take(i as int) =~= p);
    out
}

// ---- trimming ----

pub fn white(c: char) -> (r: bool)
    ensures
        r == is_white(c),
{
    let u = c as u32;
    (0x09 <= u && u <= 0x0d) || u == 0x20 || u == 0x85 || u == 0xa0 || u == 0x1680 || (0x2000 <= u && u
        <= 0x200a) || u == 0x2028 || u == 0x2029 || u == 0x202f || u == 0x205f || u == 0x3000
}

/// Membership of a character in a list.
pub fn listed_in(c: char, listed: &Vec<char>) -> (r: bool)
    ensures
        r == listed@.contains(c),
{
    let mut i: usize = 0;
    while i < listed.len()
        invariant
            i <= listed@.len(),
            forall|k: int| 0 <= k < i ==> listed@[k] != c,
        decreases listed@.len() - i,
    {
        if listed[i] == c {
            return true;
        }
        i += 1;
    }
    false
}

/// Drop the characters of a class from the front.
pub fn trim_front_of(s: &str, white_too: bool, listed: &str) -> (r: String)
    ensures
        r@ == trim_front(s@, white_too, listed@),
{
    let v = to_chars(s);
    let l = to_chars(listed);
    let mut i: usize = 0;
    assert(s@.skip(0) =~= s@);
    while i < v.len() && ((white_too && white(v[i])) || listed_in(v[i], &l))
        invariant
            i <= v@.len(),
            v@ == s@,
            l@ == listed@,
            trim_front(s@, white_too, listed@) == trim_front(s@.skip(i as int), white_too, listed@),
        decreases v@.len() - i,
    {
        assert(s@.skip(i as int).drop_first() =~= s@.skip(i + 1));
        i += 1;
    }
    let r = text_of(&v, i, v.len());
    assert(r@ =~= s@.skip(i as int));
    r
}

/// Drop the characters of a class from the back.
pub fn trim_back_of(s: &str, white_too: bool, listed: &str) -> (r: String)
    ensures
        r@ == trim_back(s@, white_too, listed@),
{
    let v = to_chars(s);
    let l = to_chars(listed);
    let mut n: usize = v.len();
    assert(s@.take(n as int) =~= s@);
    while n > 0 && ((white_too && white(v[n - 1])) || listed_in(v[n - 1], &l))
        invariant
            n <= v@.len(),
            v@ == s@,
            l@ == listed@,
            trim_back(s@, white_too, listed@) == trim_back(s@.take(n as int), white_too, listed@),
        decreases n,
    {
        assert(s@.take(n as int).drop_last() =~= s@.take(n - 1));
        n -= 1;
    }
    let r = text_of(&v, 0, n);
    assert(r@ =~= s@.take(n as int));
    r
}

/// Drop white space from both ends.
pub fn trim(s: &str) -> (r: String)
    ensures
        r@ == trimmed(s@),
{
    let empty = "";
    proof {
        reveal_strlit("");
        assert(""@ =~= Seq::<char>::empty());
    }
    let a = trim_front_of(s, true, empty);
    trim_back_of(a.as_str(), true, empty)
}

/// Drop white space from the front.
pub fn trim_start(s: &str) -> (r: String)
    ensures
        r@ == trim_front(s@, true, Seq::empty()),
{
    proof {
        reveal_strlit("");
        assert(""@ =~= Seq::<char>::empty());
    }
    trim_front_of(s, true, "")
}

/// Drop white space from the back.
pub fn trim_end(s: &str) -> (r: String)
    ensures
        r@ == trim_back(s@, true, Seq::empty()),
{
    proof {
        reveal_strlit("");
        assert(""@ =~= Seq::<char>::empty());
    }
    trim_back_of(s, true, "")
}

// ---- searching ----

/// Does `p` stand in `s` at `at`?
pub fn stands_at(s: &Vec<char>, p: &Vec<char>, at: usize) -> (r: bool)
    ensures
        r == occurs_at(s@, p@, at as int),
{
    if p.len() > s.len() || at > s.len() - p.len() {
        return false;
    }
    let n = s.len();
    let mut k: usize = 0;
    while k < p.len()
        invariant
            k <= p@.len(),
            n == s@.len(),
            at + p@.len() <= n,
            forall|j: int| 0 <= j < k ==> s@[at + j] == p@[j],
        decreases p@.len() - k,
    {
        if s[at + k] != p[k] {
            assert(s@.subrange(at as int, at + p@.len())[k as int] != p@[k as int]);
            return false;
        }
        k += 1;
    }
    assert(s@.subrange(at as int, at + p@.len()) =~= p@);
    true
}

pub proof fn lemma_occurs_prefix(s: Seq<char>, p: Seq<char>)
    ensures
        occurs_at(s, p, 0) == has_prefix(s, p),
        occurs_at(s, p, s.len() - p.len()) == has_suffix(s, p),
{
    if p.len() <= s.len() {
        assert(s.subrange(0, p.len() as int) =~= s.take(p.len() as int));
        assert(s.subrange(s.len() - p.len(), s.len() as int) =~= s.skip(s.len() - p.len()));
    }
}

pub fn starts_with(s: &str, p: &str) -> (r: bool)
    ensures
        r == has_prefix(s@, p@),
{
    proof {
        lemma_occurs_prefix(s@, p@);
    }
    let v = to_chars(s);
    let w = to_chars(p);
    stands_at(&v, &w, 0)
}

pub fn ends_with(s: &str, p: &str) -> (r: bool)
    ensures
        r == has_suffix(s@, p@),
{
    proof {
        lemma_occurs_prefix(s@, p@);
    }
    let v = to_chars(s);
    let w = to_chars(p);
    if w.len() > v.len() {
        return false;
    }
    stands_at(&v, &w, v.len() - w.len())
}

pub proof fn lemma_find_from(s: Seq<char>, p: Seq<char>, from: int)
    requires
        0 <= from,
    ensures
        match find_from(s, p, from) {
            Some(i) => from <= i && occurs_at(s, p, i) && forall|k: int|
                from <= k < i ==> !#[trigger] occurs_at(s, p, k),
            None => forall|k: int| from <= k ==> !#[trigger] occurs_at(s, p, k),
        },
    decreases s.len() + 1 - from,
{
    if from + p.len() <= s.len() && !occurs_at(s, p, from) {
        lemma_find_from(s, p, from + 1);
    }
}

/// First occurrence of `p` in `s` at or after `from`.
pub fn find_text(s: &Vec<char>, p: &Vec<char>, from: usize) -> (r: Option<usize>)
    requires
        from <= s@.len(),
    ensures
        match r {
            Some(i) => find_from(s@, p@, from as int) == Some(i as int) && i + p@.len() <= s@.len(),
            None => find_from(s@, p@, from as int) is None,
        },
{
    let mut i: usize = from;
    while p.len() <= s.len() && i <= s.len() - p.len()
        invariant
            from <= i,
            i <= s@.len() + 1,
            find_from(s@, p@, from as int) == find_from(s@, p@, i as int),
        decreases s@.len() + 1 - i,
    {
        if stands_at(s, p, i) {
            return Some(i);
        }
        if i == s.len() - p.len() {
            assert(find_from(s@, p@, i + 1) is None);
            return None;
        }
        i += 1;
    }
    None
}

pub fn contains_text(s: &str, p: &str) -> (r: bool)
    ensures
        r == has_infix(s@, p@),
{
    let v = to_chars(s);
    let w = to_chars(p);
    proof {
        lemma_find_from(s@, p@, 0);
    }
    let f = find_text(&v, &w, 0);
    match f {
        Some(i) => {
            assert(occurs_at(s@, p@, i as int));
            true
        },
        None => {
            assert forall|i: int| !#[trigger] occurs_at(s@, p@, i) by {}
            false
        },
    }
}

/// The pieces between occurrences of a text.
pub fn split_on_text(s: &str, p: &str) -> (r: Vec<String>)
    requires
        p@.len() > 0,
    ensures
        views(r@) == split_text(s@, p@),
        r@.len() >= 1,
{
    let v = to_chars(s);
    let w = to_chars(p);
    let mut out: Vec<String> = Vec::new();
    let mut from: usize = 0;
    assert(s@.skip(0) =~= s@);
    assert(views(out@) + split_text(s@, p@) =~= split_text(s@, p@));
    let n = v.len();
    loop
        invariant_except_break
            split_text(s@, p@) == views(out@) + split_text(s@.skip(from as int), p@),
        invariant
            from <= n,
            n == v@.len(),
            v@ == s@,
            w@ == p@,
            p@.len() > 0,
        ensures
            views(out@) == split_text(s@, p@),
            out@.len() >= 1,
        decreases v@.len() - from,
    {
        let f = find_text(&v, &w, from);
        proof {
            lemma_find_shift(s@, p@, from as int, 0);
        }
        match f {
            Some(i) => {
                proof {
                    lemma_find_from(s@, p@, from as int);
                }
                let piece = text_of(&v, from, i);
                proof {
                    lemma_views_push(out@, piece);
                    assert(s@.skip(from as int).take(i - from) =~= piece@);
                    assert(s@.skip(from as int).skip(i - from + p@.len()) =~= s@.skip(i + p@.len()));
                    assert(views(out@.push(piece)) + split_text(s@.skip(i + p@.len()), p@) =~= views(out@)
                        + (seq![piece@] + split_text(s@.skip(i + p@.len()), p@)));
                }
                out.push(piece);
                from = i + w.len();
            },
            None => {
                let piece = text_of(&v, from, v.len());
                proof {
                    lemma_views_push(out@, piece);
                    assert(s@.skip(from as int) =~= piece@);
                    assert(views(out@.push(piece)) =~= views(out@) + seq![piece@]);
                }
                out.push(piece);
                break ;
            },
        }
    }
    out
}

/// Searching behind a cut is searching in what is left.
pub proof fn lemma_find_shift(s: Seq<char>, p: Seq<char>, from: int, k: int)
    requires
        0 <= from <= s.len(),
        0 <= k,
    ensures
        find_from(s.skip(from), p, k) == (match find_from(s, p, from + k) {
            Some(i) => Some(i - from),
            None => None,
        }),
    decreases s.len() + 1 - from - k,
{
    let t = s.skip(from);
    if k + p.len() <= t.len() {
        assert(t.subrange(k, k + p.len()) =~= s.subrange(from + k, from + k + p.len()));
        if !occurs_at(t, p, k) {
            lemma_find_shift(s, p, from, k + 1);
        }
    }
}

pub proof fn lemma_first_index(s: Seq<char>, c: char)
    ensures
        match first_index(s, c) {
            Some(i) => 0 <= i < s.len() && s[i] == c && forall|k: int| 0 <= k < i ==> s[k] != c,
            None => forall|k: int| 0 <= k < s.len() ==> s[k] != c,
        },
    decreases s.len(),
{
    if s.len() > 0 {
        lemma_first_index(s.drop_last(), c);
        assert forall|k: int| 0 <= k < s.len() - 1 implies s[k] == s.drop_last()[k] by {}
    }
}

pub proof fn lemma_last_index(s: Seq<char>, c: char)
    ensures
        match last_index(s, c) {
            Some(i) => 0 <= i < s.len() && s[i] == c && forall|k: int| i < k < s.len() ==> s[k] != c,
            None => forall|k: int| 0 <= k < s.len() ==> s[k] != c,
        },
    decreases s.len(),
{
    if s.len() > 0 && s.last() != c {
        lemma_last_index(s.drop_last(), c);
        assert forall|k: int| 0 <= k < s.len() - 1 implies s[k] == s.drop_last()[k] by {}
    }
}

/// Index of the first `c`, in characters.
pub fn index_of(s: &str, c: char) -> (r: Option<usize>)
    ensures
        match r {
            Some(i) => first_index(s@, c) == Some(i as int) && i < s@.len(),
            None => first_index(s@, c) is None,
        },
{
    let v = to_chars(s);
    proof {
        lemma_first_index(s@, c);
    }
    let mut i: usize = 0;
    while i < v.len()
        invariant
            i <= v@.len(),
            v@ == s@,
            forall|k: int| 0 <= k < i ==> s@[k] != c,
        decreases v@.len() - i,
    {
        if v[i] == c {
            proof {
                lemma_first_index(s@, c);
            }
            return Some(i);
        }
        i += 1;
    }
    None
}

/// Index of the last `c`, in characters.
pub fn last_index_of(s: &str, c: char) -> (r: Option<usize>)
    ensures
        match r {
            Some(i) => last_index(s@, c) == Some(i as int) && i < s@.len(),
            None => last_index(s@, c) is None,
        },
{
    let v = to_chars(s);
    proof {
        lemma_last_index(s@, c);
    }
    let mut n: usize = v.len();
    while n > 0
        invariant
            n <= v@.len(),
            v@ == s@,
            forall|k: int| n <= k < s@.len() ==> s@[k] != c,
        decreases n,
    {
        if v[n - 1] == c {
            proof {
                lemma_last_index(s@, c);
            }
            return Some(n - 1);
        }
        n -= 1;
    }
    None
}

// ---- rewriting ----

/// ASCII letters in lower case.
pub fn to_lower(s: &str) -> (r: String)
    ensures
        r@ == lower(s@),
{
    let v = to_chars(s);
    let mut out = String::new();
    let mut i: usize = 0;
    while i < v.len()
        invariant
            i <= v@.len(),
            v@ == s@,
            out@ == lower(s@.take(i as int)),
        decreases v@.len() - i,
    {
        let c = v[i];
        let d = if 'A' <= c && c <= 'Z' {
            ((c as u8) + 32) as char
        } else {
            c
        };
        out.push(d);
        i += 1;
        assert(out@ =~= lower(s@.take(i as int)));
    }
    assert(s@.take(i as int) =~= s@);
    out
}

/// Every `a` becomes `b`.
pub fn replace_char(s: &str, a: char, b: char) -> (r: String)
    ensures
        r@ == swap_char(s@, a, b),
{
    let v = to_chars(s);
    let mut out = String::new();
    let mut i: usize = 0;
    while i < v.len()
        invariant
            i <= v@.len(),
            v@ == s@,
            out@ == swap_char(s@.take(i as int), a, b),
        decreases v@.len() - i,
    {
        let c = v[i];
        out.push(if c == a { b } else { c });
        i += 1;
        assert(out@ =~= swap_char(s@.take(i as int), a, b));
    }
    assert(s@.take(i as int) =~= s@);
    out
}

/// Drop every repetition of `p` from the front.
pub fn strip_front(s: &str, p: &str) -> (r: String)
    requires
        p@.len() > 0,
    ensures
        r@ == strip_front_all(s@, p@),
{
    let v = to_chars(s);
    let w = to_chars(p);
    let n = v.len();
    let mut i: usize = 0;
    assert(s@.skip(0) =~= s@);
    while stands_at(&v, &w, i)
        invariant
            i <= n,
            n == v@.len(),
            v@ == s@,
            w@ == p@,
            p@.len() > 0,
            strip_front_all(s@, p@) == strip_front_all(s@.skip(i as int), p@),
        ensures
            i <= v@.len(),
            !occurs_at(s@, p@, i as int),
            strip_front_all(s@, p@) == strip_front_all(s@.skip(i as int), p@),
        decreases v@.len() - i,
    {
        assert(s@.skip(i as int).take(p@.len() as int) =~= s@.subrange(i as int, i + p@.len()));
        assert(s@.skip(i as int).skip(p@.len() as int) =~= s@.skip(i + p@.len()));
        i += w.len();
    }
    assert(!has_prefix(s@.skip(i as int), p@)) by {
        if has_prefix(s@.skip(i as int), p@) {
            assert(s@.skip(i as int).take(p@.len() as int) =~= s@.subrange(i as int, i + p@.len()));
        }
    }
    let r = text_of(&v, i, v.len());
    assert(r@ =~= s@.skip(i as int));
    r
}

/// Drop every repetition of `p` from the back.
pub fn strip_back(s: &str, p: &str) -> (r: String)
    requires
        p@.len() > 0,
    ensures
        r@ == strip_back_all(s@, p@),
{
    let v = to_chars(s);
    let w = to_chars(p);
    let mut n: usize = v.len();
    assert(s@.take(n as int) =~= s@);
    while n >= w.len() && stands_at(&v, &w, n - w.len())
        invariant
            n <= v@.len(),
            v@ == s@,
            w@ == p@,
            p@.len() > 0,
            strip_back_all(s@, p@) == strip_back_all(s@.take(n as int), p@),
        decreases n,
    {
        assert(s@.take(n as int).skip(n - p@.len()) =~= s@.subrange(n - p@.len(), n as int));
        assert(s@.take(n as int).take(n - p@.len()) =~= s@.take(n - p@.len()));
        n -= w.len();
    }
    assert(!has_suffix(s@.take(n as int), p@)) by {
        if has_suffix(s@.take(n as int), p@) {
            assert(s@.take(n as int).skip(n - p@.len()) =~= s@.subrange(n - p@.len(), n as int));
        }
    }
    let r = text_of(&v, 0, n);
    assert(r@ =~= s@.take(n as int));
    r
}

// ---- order ----

/// Lexicographic comparison.
pub fn le_text(a: &str, b: &str) -> (r: bool)
    ensures
        r == text_le(a@, b@),
{
    let x = to_chars(a);
    let y = to_chars(b);
    let mut i: usize = 0;
    assert(a@.skip(0) =~= a@);
    assert(b@.skip(0) =~= b@);
    while i < x.len()
        invariant
            i <= x@.len(),
            i <= y@.len(),
            x@ == a@,
            y@ == b@,
            text_le(a@, b@) == text_le(a@.skip(i as int), b@.skip(i as int)),
        decreases x@.len() - i,
    {
        if i >= y.len() {
            return false;
        }
        if x[i] != y[i] {
            return x[i] < y[i];
        }
        assert(a@.skip(i as int).drop_first() =~= a@.skip(i + 1));
        assert(b@.skip(i as int).drop_first() =~= b@.skip(i + 1));
        i += 1;
    }
    true
}

pub proof fn lemma_text_le_refl(a: Seq<char>)
    ensures
        text_le(a, a),
    decreases a.len(),
{
    if a.len() > 0 {
        lemma_text_le_refl(a.drop_first());
    }
}

pub proof fn lemma_text_le_total(a: Seq<char>, b: Seq<char>)
    ensures
        text_le(a, b) || text_le(b, a),
    decreases a.len(),
{
    if a.len() > 0 && b.len() > 0 && a[0] == b[0] {
        lemma_text_le_total(a.drop_first(), b.drop_first());
    }
}

pub proof fn lemma_text_le_antisym(a: Seq<char>, b: Seq<char>)
    requires
        text_le(a, b),
        text_le(b, a),
    ensures
        a == b,
    decreases a.len(),
{
    if a.len() > 0 && b.len() > 0 {
        lemma_text_le_antisym(a.drop_first(), b.drop_first());
        assert(a =~= seq![a[0]] + a.drop_first());
        assert(b =~= seq![b[0]] + b.drop_first());
    } else {
        assert(a =~= b);
    }
}

pub proof fn lemma_text_le_trans(a: Seq<char>, b: Seq<char>, c: Seq<char>)
    requires
        text_le(a, b),
        text_le(b, c),
    ensures
        text_le(a, c),
    decreases a.len(),
{
    if a.len() > 0 && b.len() > 0 && c.len() > 0 && a[0] == b[0] && b[0] == c[0] {
        lemma_text_le_trans(a.drop_first(), b.drop_first(), c.drop_first());
    }
}

// ---- numbers ----

/// Decimal notation of a natural number.
pub fn wide_nat_text(n: u128) -> (r: String)
    ensures
        r@ == decimal(n as nat),
    decreases n,
{
    let d = (n % 10) as u8;
    let c = (48u8 + d) as char;
    assert(c == digit((n % 10) as int));
    if n < 10 {
        let mut out = String::new();
        out.push(c);
        assert(out@ =~= seq![digit(n as int)]);
        out
    } else {
        let mut out = wide_nat_text(n / 10);
        out.push(c);
        out
    }
}

pub fn nat_text(n: u64) -> (r: String)
    ensures
        r@ == decimal(n as nat),
{
    wide_nat_text(n as u128)
}

/// Decimal notation with leading zeros behind the sign.
pub fn int_text_padded(n: i64, width: u8) -> (r: String)
    ensures
        r@ == decimal_padded(n as int, width as int),
{
    let neg = n < 0;
    let mag: u64 = if n < 0 {
        ((-(n as i128)) as u64)
    } else {
        n as u64
    };
    let d = nat_text(mag);
    let have = d.as_str().unicode_len();
    let mut out = String::new();
    let mut used: usize = 0;
    if neg {
        out.push('-');
        used = 1;
    }
    let ghost sign = out@;
    let ghost want: int = width - used - have;
    let mut k: usize = 0;
    while k < width as usize && (k + used) < width as usize && have < (width as usize) - k - used
        invariant
            k <= 255,
            used <= 1,
            k > 0 ==> k <= want,
            want == width - used - have,
            out@ == sign + zeros(k as int),
        ensures
            k as int >= want,
            k > 0 ==> k <= want,
            out@ == sign + zeros(k as int),
        decreases 255 - k,
    {
        out.push('0');
        k += 1;
        assert(sign + zeros(k as int) =~= (sign + zeros(k - 1)).push('0'));
    }
    assert(zeros(k as int) =~= zeros(want));
    out.append(d.as_str());
    if neg {
        assert(sign =~= seq!['-']);
    } else {
        assert(sign + zeros(want) =~= zeros(want));
    }
    out
}

/// Decimal notation of an integer.
pub fn int_text(n: i64) -> (r: String)
    ensures
        r@ == decimal_int(n as int),
{
    int_text_padded(n, 0)
}

pub fn wide_int_text(n: i128) -> (r: String)
    ensures
        r@ == decimal_int(n as int),
{
    if n < 0 {
        let mag: u128 = (-(n + 1)) as u128 + 1;
        let d = wide_nat_text(mag);
        let r = cat2("-", d.as_str());
        proof {
            reveal_strlit("-");
            assert("-"@ =~= seq!['-']);
            assert(seq!['-'] + zeros(0 - 1 - d@.len()) =~= seq!['-']);
        }
        r
    } else {
        let d = wide_nat_text(n as u128);
        assert(zeros(0 - d@.len()) + d@ =~= d@);
        d
    }
}

/// What stands behind the last character of a class.
pub fn behind_last(s: &str, listed: &str) -> (r: String)
    ensures
        r@ == after_last(s@, listed@),
{
    let v = to_chars(s);
    let set = to_chars(listed);
    let mut i: usize = v.len();
    assert(s@.take(i as int) =~= s@);
    while i > 0 && !listed_in(v[i - 1], &set)
        invariant
            i <= v@.len(),
            v@ == s@,
            set@ == listed@,
            after_last(s@, listed@) == after_last(s@.take(i as int), listed@) + s@.skip(i as int),
        decreases i,
    {
        assert(s@.take(i as int).drop_last() =~= s@.take(i - 1));
        assert(after_last(s@.take(i as int), listed@) == after_last(s@.take(i - 1), listed@).push(s@[i - 1]));
        assert(after_last(s@.take(i - 1), listed@).push(s@[i - 1]) + s@.skip(i as int) =~= after_last(
            s@.take(i - 1),
            listed@,
        ) + s@.skip(i - 1));
        i -= 1;
    }
    assert(after_last(s@.take(i as int), listed@) =~= Seq::<char>::empty());
    assert(after_last(s@, listed@) =~= s@.skip(i as int));
    tail_text(s, i)
}

/// The lines of a text, without their endings.
pub fn lines_of(s: &str) -> (r: Vec<String>)
    ensures
        views(r@) == lines(s@),
{
    let parts = split_on(s, '\n');
    let ghost p = split(s@, '\n');
    let ghost f = |l: Seq<char>| without_cr(l);
    let n = parts.len();
    let mut out: Vec<String> = Vec::new();
    let mut i: usize = 0;
    assert(views(out@) =~= p.take(0).map_values(f));
    while i + 1 < n
        invariant
            i < n,
            n == parts@.len(),
            views(parts@) == p,
            f == (|l: Seq<char>| without_cr(l)),
            views(out@) == p.take(i as int).map_values(f),
        decreases n - i,
    {
        let v = to_chars(parts[i].as_str());
        assert(p[i as int] == parts@[i as int]@);
        let line = if v.len() > 0 && v[v.len() - 1] == '\r' {
            let t = text_of(&v, 0, v.len() - 1);
            assert(t@ =~= v@.drop_last());
            t
        } else {
            text_all(&v)
        };
        proof {
            lemma_views_push(out@, line);
            assert(p.take(i + 1).map_values(f) =~= p.take(i as int).map_values(f).push(without_cr(p[i as int])));
        }
        out.push(line);
        i += 1;
    }
    assert(p.take(i as int) =~= p.drop_last());
    assert(p.last() == parts@[i as int]@);
    if parts[i].as_str().unicode_len() > 0 {
        proof {
            lemma_views_push(out@, parts@[i as int]);
        }
        out.push(parts[i].clone());
    }
    out
}

/// What lossy decoding makes of bytes.
pub uninterp spec fn lossy(bytes: Seq<u8>) -> Seq<char>;

/// `String::from_utf8_lossy`: a function of the bytes, which decodes valid
/// UTF-8 as it stands.
#[verifier::external_body]
pub(crate) fn utf8_lossy(bytes: &Vec<u8>) -> (r: String)
    ensures
        r@ == lossy(bytes@),
        valid_utf8(bytes@) ==> r@ == decode_utf8(bytes@),
{
    String::from_utf8_lossy(bytes).into_owned()
}

/// A decimal digit.
pub open spec fn is_digit(c: char) -> bool {
    '0' <= c && c <= '9'
}

/// A non-empty run of decimal digits.
pub open spec fn all_digits(s: Seq<char>) -> bool {
    s.len() > 0 && forall|i: int| 0 <= i < s.len() ==> is_digit(#[trigger] s[i])
}

/// The number that a run of digits writes.
pub open spec fn digits_value(s: Seq<char>) -> int
    decreases s.len(),
{
    if s.len() == 0 {
        0
    } else {
        digits_value(s.drop_last()) * 10 + (s.last() as int - '0' as int)
    }
}

/// Ten to the power `n`.
pub open spec fn pow10(n: nat) -> int
    decreases n,
{
    if n == 0 {
        1
    } else {
        10 * pow10((n - 1) as nat)
    }
}

pub proof fn lemma_pow10(n: nat)
    requires
        n <= 10,
    ensures
        1 <= pow10(n) <= 10_000_000_000,
{
    reveal_with_fuel(pow10, 11);
}

pub proof fn lemma_digits_bound(s: Seq<char>)
    requires
        forall|i: int| 0 <= i < s.len() ==> is_digit(#[trigger] s[i]),
    ensures
        0 <= digits_value(s) < pow10(s.len()),
    decreases s.len(),
{
    if s.len() > 0 {
        let t = s.drop_last();
        assert forall|i: int| 0 <= i < t.len() implies is_digit(#[trigger] t[i]) by {
            assert(t[i] == s[i]);
        }
        lemma_digits_bound(t);
        assert(is_digit(s[s.len() - 1]));
    }
}

/// A text has no more characters than bytes.
pub proof fn lemma_char_count(s: Seq<char>)
    ensures
        s.len() <= byte_len(s),
    decreases s.len(),
{
    reveal_with_fuel(encode_utf8, 2);
    if s.len() > 0 {
        lemma_char_count(s.drop_first());
    }
}

/// The number that `s` writes without a minus sign, up to `u64::MAX`.
pub open spec fn unsigned_value(s: Seq<char>) -> Option<int> {
    let body = if s.len() > 0 && s[0] == '+' { s.skip(1) } else { s };
    if all_digits(body) && digits_value(body) <= u64::MAX {
        Some(digits_value(body))
    } else {
        None
    }
}

/// The number that `s` writes in decimal with an optional sign, where it is
/// one of the 64-bit signed integers.
pub open spec fn signed_value(s: Seq<char>) -> Option<int> {
    let signed = s.len() > 0 && (s[0] == '+' || s[0] == '-');
    let body = if signed { s.skip(1) } else { s };
    let v = if signed && s[0] == '-' { -digits_value(body) } else { digits_value(body) };
    if all_digits(body) && i64::MIN <= v <= i64::MAX {
        Some(v)
    } else {
        None
    }
}

/// The number written by `v[from..]`, where it is at most `u64::MAX`.
fn read_digits(v: &Vec<char>, from: usize) -> (r: Option<u64>)
    requires
        from <= v@.len(),
    ensures
        match r {
            Some(n) => all_digits(v@.skip(from as int)) && digits_value(v@.skip(from as int)) == n,
            None => all_digits(v@.skip(from as int)) ==> digits_value(v@.skip(from as int)) > u64::MAX,
        },
{
    let ghost b = v@.skip(from as int);
    if from == v.len() {
        return None;
    }
    let mut acc: u64 = 0;
    let mut over = false;
    let mut i: usize = from;
    assert(b.take(0) =~= Seq::<char>::empty());
    while i < v.len()
        invariant
            from <= i <= v@.len(),
            b == v@.skip(from as int),
            forall|k: int| 0 <= k < i - from ==> is_digit(#[trigger] b[k]),
            over ==> digits_value(b.take(i - from)) > u64::MAX,
            !over ==> digits_value(b.take(i - from)) == acc,
        decreases v@.len() - i,
    {
        let c = v[i];
        assert(c == b[i - from]);
        if c < '0' || '9' < c {
            return None;
        }
        let d: u64 = (c as u32 - 48) as u64;
        assert(b.take(i + 1 - from).drop_last() =~= b.take(i - from));
        if !over {
            let wide: u128 = (acc as u128) * 10 + (d as u128);
            if wide > u64::MAX as u128 {
                over = true;
            } else {
                acc = wide as u64;
            }
        }
        i += 1;
    }
    assert(b.take(i - from) =~= b);
    if over {
        None
    } else {
        Some(acc)
    }
}

/// Read an unsigned decimal number.
pub fn parse_u64(s: &str) -> (r: Option<u64>)
    ensures
        match r {
            Some(n) => unsigned_value(s@) == Some(n as int),
            None => unsigned_value(s@) is None,
        },
{
    let v = to_chars(s);
    assert(s@.skip(0) =~= s@);
    let from: usize = if v.len() > 0 && v[0] == '+' {
        1
    } else {
        0
    };
    read_digits(&v, from)
}

/// Read a signed decimal number.
pub fn parse_i64(s: &str) -> (r: Option<i64>)
    ensures
        match r {
            Some(n) => signed_value(s@) == Some(n as int),
            None => signed_value(s@) is None,
        },
{
    let v = to_chars(s);
    assert(s@.skip(0) =~= s@);
    let neg = v.len() > 0 && v[0] == '-';
    let from: usize = if v.len() > 0 && (v[0] == '+' || v[0] == '-') {
        1
    } else {
        0
    };
    match read_digits(&v, from) {
        None => None,
        Some(n) => {
            if neg {
                if n <= 9223372036854775808 {
                    Some((-(n as i128)) as i64)
                } else {
                    None
                }
            } else if n <= 9223372036854775807 {
                Some(n as i64)
            } else {
                None
            }
        },
    }
}


// ---- numbers read back ----

proof fn lemma_decimal(n: nat)
    ensures
        all_digits(decimal(n)),
        digits_value(decimal(n)) == n,
    decreases n,
{
    let d = digit((n % 10) as int);
    assert(is_digit(d) && d as int - '0' as int == n % 10);
    if n < 10 {
        let s = seq![digit(n as int)];
        assert(s.drop_last() =~= Seq::<char>::empty());
        assert(digits_value(s.drop_last()) == 0);
        assert(s.last() == d);
    } else {
        lemma_decimal(n / 10);
        let b = decimal(n / 10);
        let s = b.push(d);
        assert(s.drop_last() =~= b);
        assert forall|i: int| 0 <= i < s.len() implies is_digit(#[trigger] s[i]) by {
            if i < b.len() {
                assert(s[i] == b[i]);
            }
        }
    }
}

proof fn lemma_leading_zeros(k: int, d: Seq<char>)
    requires
        forall|i: int| 0 <= i < d.len() ==> is_digit(#[trigger] d[i]),
    ensures
        forall|i: int| 0 <= i < (zeros(k) + d).len() ==> is_digit(#[trigger] (zeros(k) + d)[i]),
        digits_value(zeros(k) + d) == digits_value(d),
    decreases d.len() + zeros(k).len(),
{
    let s = zeros(k) + d;
    if d.len() > 0 {
        let t = d.drop_last();
        assert forall|i: int| 0 <= i < t.len() implies is_digit(#[trigger] t[i]) by {
            assert(t[i] == d[i]);
        }
        lemma_leading_zeros(k, t);
        assert(s.drop_last() =~= zeros(k) + t);
        assert(is_digit(d[d.len() - 1]));
        assert forall|i: int| 0 <= i < s.len() implies is_digit(#[trigger] s[i]) by {
            if i < s.len() - 1 {
                assert(is_digit((zeros(k) + t)[i]));
            }
        }
    } else if k > 0 {
        lemma_leading_zeros(k - 1, d);
        assert(s.drop_last() =~= zeros(k - 1) + d);
        assert forall|i: int| 0 <= i < s.len() implies is_digit(#[trigger] s[i]) by {
            assert(s[i] == '0');
        }
    } else {
        assert(s =~= d);
    }
}

/// Law: a number that was written down, with leading zeros or without, is
/// read back as itself.
pub proof fn numbers_read_back(n: int, width: int)
    ensures
        i64::MIN <= n <= i64::MAX ==> signed_value(decimal_padded(n, width)) == Some(n),
        0 <= n <= u64::MAX ==> unsigned_value(decimal_padded(n, width)) == Some(n),
{
    let m = (if n < 0 {
        -n
    } else {
        n
    }) as nat;
    let d = decimal(m);
    lemma_decimal(m);
    let s = decimal_padded(n, width);
    if n < 0 {
        let k = width - 1 - d.len();
        lemma_leading_zeros(k, d);
        assert(s.skip(1) =~= zeros(k) + d);
        assert(s[0] == '-');
    } else {
        let k = width - d.len();
        lemma_leading_zeros(k, d);
        assert(s == zeros(k) + d);
        assert(is_digit(s[0]));
    }
}

/// Law: a text that writes a natural number in decimal holds no sign.
pub proof fn decimals_are_digits(n: nat, width: int)
    ensures
        all_digits(decimal_padded(n as int, width)),
{
    lemma_decimal(n);
    lemma_leading_zeros(width - decimal(n).len(), decimal(n));
}

} // verus!
