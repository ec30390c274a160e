//! Text primitives shared by the plugins and the worker: characters of a
//! string, character classes, and decimal rendering.

use vstd::prelude::*;
use vstd::std_specs::iter::IteratorSpec;

verus! {

broadcast use vstd::string::group_string_axioms;

/// Whether `c` has the Unicode `Alphabetic` property.
pub uninterp spec fn is_alphabetic(c: char) -> bool;

/// `char::is_alphabetic` decides the Unicode `Alphabetic` property, which is
/// given a name here and not spelled out.
pub assume_specification[ char::is_alphabetic ](c: char) -> (b: bool)
    ensures
        b == is_alphabetic(c),
;

/// Whether `c` has the Unicode `White_Space` property.
pub uninterp spec fn is_whitespace(c: char) -> bool;

/// `char::is_whitespace` decides the Unicode `White_Space` property, which is
/// given a name here and not spelled out.
pub assume_specification[ char::is_whitespace ](c: char) -> (b: bool)
    ensures
        b == is_whitespace(c),
;

/// `String::push` appends one character to the end of the string.
pub assume_specification[ String::push ](s: &mut String, ch: char)
    ensures
        final(s)@ == old(s)@.push(ch),
;

/// The characters of `s`, in order.
pub fn chars_of(s: &str) -> (out: Vec<char>)
    ensures
        out@ == s@,
{
    let mut out: Vec<char> = Vec::new();
    let mut it = s.chars();
    loop
        invariant
            it.obeys_prophetic_iter_laws(),
            it.decrease() is Some,
            s@ == out@ + it.remaining(),
        ensures
            out@ == s@,
        decreases it.decrease()->0,
    {
        match it.next() {
            Some(c) => {
                out.push(c);
            },
            None => {
                break;
            },
        }
    }
    out
}

/// The string made of `chars[from..to]`.
pub fn string_of(chars: &Vec<char>, from: usize, to: usize) -> (out: String)
    requires
        from <= to <= chars.len(),
    ensures
        out@ == chars@.subrange(from as int, to as int),
{
    let mut out = String::new();
    let mut i: usize = from;
    while i < to
        invariant
            from <= i <= to <= chars.len(),
            out@ == chars@.subrange(from as int, i as int),
        decreases to - i,
    {
        out.push(chars[i]);
        i += 1;
    }
    out
}

/// The kinds of character that a run is made of: letters, for the word
/// plugins; anything but white space, for the fields of a record line; and
/// anything but a line feed, for the lines of a file.
#[derive(Clone, Copy, Debug, PartialEq, Eq, Structural)]
pub enum CharClass {
    Alphabetic,
    Visible,
    Inline,
}

impl CharClass {
    /// Whether `c` belongs to the class.
    pub open spec fn has(self, c: char) -> bool {
        match self {
            CharClass::Alphabetic => is_alphabetic(c),
            CharClass::Visible => !is_whitespace(c),
            CharClass::Inline => c != '\n',
        }
    }

    /// Whether `c` belongs to the class.
    pub fn holds(self, c: char) -> (b: bool)
        ensures
            b == self.has(c),
    {
        match self {
            CharClass::Alphabetic => c.is_alphabetic(),
            CharClass::Visible => !c.is_whitespace(),
            CharClass::Inline => c != '\n',
        }
    }
}

/// The number of leading characters of `s` that belong to `class`.
pub open spec fn run_len(s: Seq<char>, class: CharClass) -> nat
    decreases s.len(),
{
    if s.len() == 0 || !class.has(s[0]) {
        0
    } else {
        1 + run_len(s.skip(1), class)
    }
}

/// The maximal runs of `class` characters in `s`, in order. A character
/// outside the class delimits and is dropped; no run is empty.
pub open spec fn words(s: Seq<char>, class: CharClass) -> Seq<Seq<char>>
    decreases s.len(),
{
    let n = run_len(s, class) as int;
    if s.len() == 0 {
        Seq::empty()
    } else if n == 0 {
        words(s.skip(1), class)
    } else {
        proof {
            lemma_run_len_bound(s, class);
        }
        seq![s.take(n)] + words(s.skip(n), class)
    }
}

/// Whether every character of `s` belongs to `class`.
pub open spec fn all_in(s: Seq<char>, class: CharClass) -> bool {
    forall|i: int| 0 <= i < s.len() ==> class.has(#[trigger] s[i])
}

/// The views of a sequence of strings.
pub open spec fn texts(v: Seq<String>) -> Seq<Seq<char>> {
    v.map_values(|s: String| s@)
}

/// A run is no longer than the text it starts.
pub proof fn lemma_run_len_bound(s: Seq<char>, class: CharClass)
    ensures
        run_len(s, class) <= s.len(),
    decreases s.len(),
{
    if s.len() > 0 && class.has(s[0]) {
        lemma_run_len_bound(s.skip(1), class);
    }
}

proof fn lemma_run_len_concat(run: Seq<char>, rest: Seq<char>, class: CharClass)
    requires
        all_in(run, class),
    ensures
        run_len(run + rest, class) == run.len() + run_len(rest, class),
    decreases run.len(),
{
    if run.len() == 0 {
        assert(run + rest == rest);
    } else {
        let whole = run + rest;
        assert(whole[0] == run[0]);
        assert(whole.skip(1) == run.skip(1) + rest);
        assert(all_in(run.skip(1), class)) by {
            assert forall|i: int| 0 <= i < run.skip(1).len() implies class.has(
                #[trigger] run.skip(1)[i],
            ) by {
                assert(run.skip(1)[i] == run[i + 1]);
            }
        }
        lemma_run_len_concat(run.skip(1), rest, class);
    }
}

/// A pending run followed by a delimiter: the run, if it is not empty, is the
/// next word, and the delimiter is dropped.
proof fn lemma_words_delimiter(run: Seq<char>, c: char, rest: Seq<char>, class: CharClass)
    requires
        all_in(run, class),
        !class.has(c),
    ensures
        words(run + (seq![c] + rest), class) == if run.len() > 0 {
            seq![run] + words(rest, class)
        } else {
            words(rest, class)
        },
{
    let tail = seq![c] + rest;
    let whole = run + tail;
    assert(tail[0] == c);
    assert(run_len(tail, class) == 0);
    assert(tail.skip(1) == rest);
    assert(words(tail, class) == words(rest, class));
    lemma_run_len_concat(run, tail, class);
    if run.len() > 0 {
        let n = run.len() as int;
        assert(whole.take(n) == run);
        assert(whole.skip(n) == tail);
    } else {
        assert(whole == tail);
    }
}

/// A pending run at the end of the text is the last word, unless it is empty.
proof fn lemma_words_end(run: Seq<char>, class: CharClass)
    requires
        all_in(run, class),
    ensures
        words(run, class) == if run.len() > 0 {
            seq![run]
        } else {
            Seq::<Seq<char>>::empty()
        },
{
    lemma_run_len_concat(run, Seq::empty(), class);
    assert(run + Seq::<char>::empty() == run);
    if run.len() > 0 {
        let n = run.len() as int;
        assert(run.take(n) == run);
        assert(run.skip(n) == Seq::<char>::empty());
        assert(words(run.skip(n), class) == Seq::<Seq<char>>::empty());
        assert(seq![run] + Seq::<Seq<char>>::empty() == seq![run]);
    }
}

/// Splits `s` into its maximal runs of `class` characters.
pub fn split_words(s: &str, class: CharClass) -> (out: Vec<String>)
    ensures
        texts(out@) == words(s@, class),
{
    let chars = chars_of(s);
    let mut out: Vec<String> = Vec::new();
    let mut start: usize = 0;
    let mut i: usize = 0;
    assert(chars@.subrange(0, 0) + chars@.skip(0) == chars@);
    assert(texts(out@) == Seq::<Seq<char>>::empty());
    while i < chars.len()
        invariant
            chars@ == s@,
            start <= i <= chars.len(),
            all_in(chars@.subrange(start as int, i as int), class),
            words(s@, class) == texts(out@) + words(
                chars@.subrange(start as int, i as int) + chars@.skip(i as int),
                class,
            ),
        decreases chars.len() - i,
    {
        let c = chars[i];
        let ghost run = chars@.subrange(start as int, i as int);
        let ghost rest = chars@.skip(i as int + 1);
        assert(chars@.skip(i as int) == seq![c] + rest);
        if class.holds(c) {
            i += 1;
            assert(chars@.subrange(start as int, i as int) == run.push(c));
            assert(run.push(c) + rest == run + (seq![c] + rest));
        } else {
            proof {
                lemma_words_delimiter(run, c, rest, class);
            }
            if start < i {
                let word = string_of(&chars, start, i);
                let ghost before = out@;
                out.push(word);
                assert(texts(out@) == texts(before) + seq![run]);
            }
            i += 1;
            start = i;
            assert(chars@.subrange(start as int, i as int) + chars@.skip(i as int) == rest);
        }
    }
    let ghost run = chars@.subrange(start as int, i as int);
    assert(run + chars@.skip(i as int) == run);
    proof {
        lemma_words_end(run, class);
    }
    if start < i {
        let word = string_of(&chars, start, i);
        let ghost before = out@;
        out.push(word);
        assert(texts(out@) == texts(before) + seq![run]);
    }
    out
}

/// The decimal digit for `d`, which is below ten.
pub open spec fn digit(d: nat) -> char {
    if d == 0 {
        '0'
    } else if d == 1 {
        '1'
    } else if d == 2 {
        '2'
    } else if d == 3 {
        '3'
    } else if d == 4 {
        '4'
    } else if d == 5 {
        '5'
    } else if d == 6 {
        '6'
    } else if d == 7 {
        '7'
    } else if d == 8 {
        '8'
    } else {
        '9'
    }
}

/// `n` in decimal, without a sign and without leading zeros.
pub open spec fn decimal(n: nat) -> Seq<char>
    decreases n,
{
    if n < 10 {
        seq![digit(n)]
    } else {
        decimal(n / 10).push(digit(n % 10))
    }
}

fn digit_char(d: u64) -> (c: char)
    requires
        d < 10,
    ensures
        c == digit(d as nat),
{
    if d == 0 {
        '0'
    } else if d == 1 {
        '1'
    } else if d == 2 {
        '2'
    } else if d == 3 {
        '3'
    } else if d == 4 {
        '4'
    } else if d == 5 {
        '5'
    } else if d == 6 {
        '6'
    } else if d == 7 {
        '7'
    } else if d == 8 {
        '8'
    } else {
        '9'
    }
}

/// Renders `n` in decimal.
pub fn decimal_string(n: u64) -> (out: String)
    ensures
        out@ == decimal(n as nat),
{
    let mut low_first: Vec<char> = Vec::new();
    let mut m: u64 = n;
    assert(decimal(m as nat) + low_first@.reverse() == decimal(n as nat));
    while m >= 10
        invariant
            decimal(n as nat) == decimal(m as nat) + low_first@.reverse(),
        decreases m,
    {
        let ghost before = low_first@;
        let d = digit_char(m % 10);
        low_first.push(d);
        assert(low_first@.reverse() == seq![d] + before.reverse());
        assert(decimal(m as nat) == decimal((m / 10) as nat).push(d));
        assert(decimal((m / 10) as nat).push(d) + before.reverse() == decimal((m / 10) as nat)
            + (seq![d] + before.reverse()));
        m = m / 10;
    }
    let ghost before = low_first@;
    let d = digit_char(m);
    low_first.push(d);
    assert(low_first@.reverse() == seq![d] + before.reverse());
    assert(decimal(n as nat) == low_first@.reverse());
    let mut out = String::new();
    let mut j: usize = low_first.len();
    while j > 0
        invariant
            j <= low_first.len(),
            out@ == low_first@.reverse().subrange(0, low_first.len() - j),
        decreases j,
    {
        j -= 1;
        out.push(low_first[j]);
    }
    assert(low_first@.reverse().subrange(0, low_first.len() as int) == low_first@.reverse());
    out
}

/// The parts in order, with `sep` between each two neighbours.
pub open spec fn join(parts: Seq<Seq<char>>, sep: Seq<char>) -> Seq<char>
    decreases parts.len(),
{
    if parts.len() == 0 {
        Seq::empty()
    } else if parts.len() == 1 {
        parts[0]
    } else {
        join(parts.drop_last(), sep) + sep + parts.last()
    }
}

/// Joins the strings with `sep` between each two neighbours.
pub fn join_strings(parts: &Vec<String>, sep: &str) -> (out: String)
    ensures
        out@ == join(texts(parts@), sep@),
{
    let mut out = String::new();
    let mut i: usize = 0;
    while i < parts.len()
        invariant
            i <= parts.len(),
            out@ == join(texts(parts@).take(i as int), sep@),
        decreases parts.len() - i,
    {
        let ghost sofar = texts(parts@).take(i as int);
        let ghost next = texts(parts@).take(i as int + 1);
        assert(next.drop_last() == sofar);
        assert(next.last() == parts@[i as int]@);
        if i > 0 {
            out.append(sep);
        } else {
            assert(sofar.len() == 0);
        }
        out.append(parts[i].as_str());
        i += 1;
    }
    assert(texts(parts@).take(i as int) == texts(parts@));
    out
}

/// Whether `needle` stands in `hay` from position `at` on.
pub open spec fn occurs_at(hay: Seq<char>, needle: Seq<char>, at: int) -> bool {
    &&& 0 <= at
    &&& at + needle.len() <= hay.len()
    &&& hay.subrange(at, at + needle.len()) == needle
}

/// Whether `needle` stands somewhere in `hay`, as one unbroken stretch.
pub open spec fn has_substring(hay: Seq<char>, needle: Seq<char>) -> bool {
    exists|at: int| occurs_at(hay, needle, at)
}

fn matches_at(hay: &Vec<char>, needle: &Vec<char>, at: usize) -> (b: bool)
    requires
        at + needle.len() <= hay.len(),
    ensures
        b == occurs_at(hay@, needle@, at as int),
{
    let mut j: usize = 0;
    while j < needle.len()
        invariant
            j <= needle.len(),
            at + needle.len() <= hay.len(),
            hay@.subrange(at as int, at + j) == needle@.take(j as int),
        decreases needle.len() - j,
    {
        if hay[at + j] != needle[j] {
            assert(hay@.subrange(at as int, at + needle.len())[j as int] != needle@[j as int]);
            return false;
        }
        assert(hay@.subrange(at as int, at + j + 1) == hay@.subrange(at as int, at + j).push(
            hay@[at + j],
        ));
        assert(needle@.take(j + 1) == needle@.take(j as int).push(needle@[j as int]));
        j += 1;
    }
    assert(needle@.take(j as int) == needle@);
    true
}

/// Whether the two strings are the same text.
pub fn same_text(a: &str, b: &str) -> (same: bool)
    ensures
        same == (a@ == b@),
{
    a.to_owned() == b.to_owned()
}

/// Whether `s` begins with `prefix`.
pub fn starts_with(s: &str, prefix: &str) -> (b: bool)
    ensures
        b == prefix@.is_prefix_of(s@),
{
    let h = chars_of(s);
    let n = chars_of(prefix);
    if n.len() > h.len() {
        return false;
    }
    let b = matches_at(&h, &n, 0);
    proof {
        if b {
            assert(prefix@ =~= s@.subrange(0, prefix@.len() as int));
        }
        if prefix@.is_prefix_of(s@) {
            assert(s@.subrange(0, prefix@.len() as int) =~= prefix@);
        }
    }
    b
}

/// Whether `needle` stands somewhere in `hay`.
pub fn contains_text(hay: &str, needle: &str) -> (b: bool)
    ensures
        b == has_substring(hay@, needle@),
{
    let h = chars_of(hay);
    let n = chars_of(needle);
    if n.len() > h.len() {
        return false;
    }
    let last: usize = h.len() - n.len();
    let mut at: usize = 0;
    loop
        invariant
            h@ == hay@,
            n@ == needle@,
            n.len() <= h.len(),
            last == h.len() - n.len(),
            at <= last,
            forall|k: int| 0 <= k < at ==> !occurs_at(h@, n@, k),
        decreases last - at,
    {
        if matches_at(&h, &n, at) {
            return true;
        }
        if at == last {
            return false;
        }
        at += 1;
    }
}

/// `line` without the carriage return at its end, if it has one.
pub open spec fn trim_cr(line: Seq<char>) -> Seq<char> {
    if line.len() > 0 && line.last() == '\r' {
        line.drop_last()
    } else {
        line
    }
}

/// The lines of `s`. A line ends at a line feed, which is dropped together
/// with a carriage return just before it; what follows the last line feed is
/// a line too, unless it is empty.
pub open spec fn lines(s: Seq<char>) -> Seq<Seq<char>>
    decreases s.len(),
{
    let n = run_len(s, CharClass::Inline) as int;
    if s.len() == 0 {
        Seq::empty()
    } else if n >= s.len() {
        seq![s]
    } else {
        seq![trim_cr(s.take(n))] + lines(s.skip(n + 1))
    }
}

proof fn lemma_lines_feed(run: Seq<char>, rest: Seq<char>)
    requires
        all_in(run, CharClass::Inline),
    ensures
        lines(run + (seq!['\n'] + rest)) == seq![trim_cr(run)] + lines(rest),
{
    let tail = seq!['\n'] + rest;
    let whole = run + tail;
    let n = run.len() as int;
    assert(tail[0] == '\n');
    assert(run_len(tail, CharClass::Inline) == 0);
    lemma_run_len_concat(run, tail, CharClass::Inline);
    assert(whole.take(n) == run);
    assert(whole.skip(n + 1) == rest);
}

proof fn lemma_lines_end(run: Seq<char>)
    requires
        all_in(run, CharClass::Inline),
    ensures
        lines(run) == if run.len() > 0 {
            seq![run]
        } else {
            Seq::<Seq<char>>::empty()
        },
{
    lemma_run_len_concat(run, Seq::empty(), CharClass::Inline);
    assert(run + Seq::<char>::empty() == run);
}

/// Splits `s` into its lines.
pub fn split_lines(s: &str) -> (out: Vec<String>)
    ensures
        texts(out@) == lines(s@),
{
    let chars = chars_of(s);
    let mut out: Vec<String> = Vec::new();
    let mut start: usize = 0;
    let mut i: usize = 0;
    assert(chars@.subrange(0, 0) + chars@.skip(0) == chars@);
    assert(texts(out@) == Seq::<Seq<char>>::empty());
    while i < chars.len()
        invariant
            chars@ == s@,
            start <= i <= chars.len(),
            all_in(chars@.subrange(start as int, i as int), CharClass::Inline),
            lines(s@) == texts(out@) + lines(
                chars@.subrange(start as int, i as int) + chars@.skip(i as int),
            ),
        decreases chars.len() - i,
    {
        let c = chars[i];
        let ghost run = chars@.subrange(start as int, i as int);
        let ghost rest = chars@.skip(i as int + 1);
        assert(chars@.skip(i as int) == seq![c] + rest);
        if c != '\n' {
            i += 1;
            assert(chars@.subrange(start as int, i as int) == run.push(c));
            assert(run.push(c) + rest == run + (seq![c] + rest));
        } else {
            proof {
                lemma_lines_feed(run, rest);
            }
            let end: usize = if start < i && chars[i - 1] == '\r' {
                i - 1
            } else {
                i
            };
            assert(chars@.subrange(start as int, end as int) == trim_cr(run));
            let line = string_of(&chars, start, end);
            let ghost before = out@;
            out.push(line);
            assert(texts(out@) == texts(before) + seq![trim_cr(run)]);
            i += 1;
            start = i;
            assert(chars@.subrange(start as int, i as int) + chars@.skip(i as int) == rest);
        }
    }
    let ghost run = chars@.subrange(start as int, i as int);
    assert(run + chars@.skip(i as int) == run);
    proof {
        lemma_lines_end(run);
    }
    if start < i {
        let line = string_of(&chars, start, i);
        let ghost before = out@;
        out.push(line);
        assert(texts(out@) == texts(before) + seq![run]);
    }
    out
}

/// Whether `a` comes strictly before `b` when the two are compared byte by
/// byte; a proper prefix comes before what it is a prefix of.
pub open spec fn bytes_lt(a: Seq<u8>, b: Seq<u8>) -> bool
    decreases a.len(),
{
    if b.len() == 0 {
        false
    } else if a.len() == 0 {
        true
    } else if a[0] != b[0] {
        a[0] < b[0]
    } else {
        bytes_lt(a.skip(1), b.skip(1))
    }
}

/// The order of strings: that of their UTF-8 bytes.
pub open spec fn text_lt(a: Seq<char>, b: Seq<char>) -> bool {
    bytes_lt(vstd::utf8::encode_utf8(a), vstd::utf8::encode_utf8(b))
}

/// Whether `a` comes strictly before `b` in the order of strings.
pub fn text_before(a: &str, b: &str) -> (r: bool)
    ensures
        r == text_lt(a@, b@),
{
    let x = a.as_bytes();
    let y = b.as_bytes();
    let mut i: usize = 0;
    assert(x@.skip(0) == x@ && y@.skip(0) == y@);
    while i < x.len() && i < y.len()
        invariant
            x@ == vstd::utf8::encode_utf8(a@),
            y@ == vstd::utf8::encode_utf8(b@),
            i <= x.len(),
            i <= y.len(),
            bytes_lt(x@, y@) == bytes_lt(x@.skip(i as int), y@.skip(i as int)),
        decreases x.len() - i,
    {
        assert(x@.skip(i as int)[0] == x@[i as int]);
        assert(y@.skip(i as int)[0] == y@[i as int]);
        if x[i] != y[i] {
            return x[i] < y[i];
        }
        assert(x@.skip(i as int).skip(1) == x@.skip(i + 1));
        assert(y@.skip(i as int).skip(1) == y@.skip(i + 1));
        i += 1;
    }
    i < y.len()
}

/// No byte string comes before itself.
pub proof fn lemma_bytes_lt_irreflexive(a: Seq<u8>)
    ensures
        !bytes_lt(a, a),
    decreases a.len(),
{
    if a.len() > 0 {
        lemma_bytes_lt_irreflexive(a.skip(1));
    }
}

/// The order of byte strings is transitive.
pub proof fn lemma_bytes_lt_transitive(a: Seq<u8>, b: Seq<u8>, c: Seq<u8>)
    requires
        bytes_lt(a, b),
        bytes_lt(b, c),
    ensures
        bytes_lt(a, c),
    decreases a.len(),
{
    if a.len() > 0 && a[0] == b[0] && b[0] == c[0] {
        lemma_bytes_lt_transitive(a.skip(1), b.skip(1), c.skip(1));
    }
}

/// Of two different byte strings one comes before the other.
pub proof fn lemma_bytes_lt_total(a: Seq<u8>, b: Seq<u8>)
    ensures
        a == b || bytes_lt(a, b) || bytes_lt(b, a),
    decreases a.len(),
{
    if a.len() > 0 && b.len() > 0 && a[0] == b[0] {
        lemma_bytes_lt_total(a.skip(1), b.skip(1));
        if a.skip(1) == b.skip(1) {
            assert(a =~= seq![a[0]] + a.skip(1));
            assert(b =~= seq![b[0]] + b.skip(1));
        }
    } else if a.len() == 0 && b.len() == 0 {
        assert(a =~= b);
    }
}

/// The order of strings is a strict total order: no string comes before
/// itself, the order is transitive, and of two different strings one comes
/// before the other.
pub proof fn lemma_text_order(a: Seq<char>, b: Seq<char>, c: Seq<char>)
    ensures
        !text_lt(a, a),
        text_lt(a, b) && text_lt(b, c) ==> text_lt(a, c),
        a == b || text_lt(a, b) || text_lt(b, a),
        !(text_lt(a, b) && text_lt(b, a)),
{
    let x = vstd::utf8::encode_utf8(a);
    let y = vstd::utf8::encode_utf8(b);
    let z = vstd::utf8::encode_utf8(c);
    lemma_bytes_lt_irreflexive(x);
    if bytes_lt(x, y) && bytes_lt(y, z) {
        lemma_bytes_lt_transitive(x, y, z);
    }
    if bytes_lt(x, y) && bytes_lt(y, x) {
        lemma_bytes_lt_transitive(x, y, x);
    }
    lemma_bytes_lt_total(x, y);
    if x == y {
        vstd::utf8::encode_utf8_decode_utf8(a);
        vstd::utf8::encode_utf8_decode_utf8(b);
    }
}

} // verus!
