//! Comparisons and trimming of text, by character.

use vstd::prelude::*;

verus! {

/// The code of a character with the ASCII capitals folded onto the small letters.
pub open spec fn folded(c: char) -> int {
    if 65 <= c as int <= 90 {
        c as int + 32
    } else {
        c as int
    }
}

/// Whether two texts agree once ASCII case is ignored.
pub open spec fn same_ignoring_case(a: Seq<char>, b: Seq<char>) -> bool {
    &&& a.len() == b.len()
    &&& forall|i: int| 0 <= i < a.len() ==> folded(#[trigger] a[i]) == folded(b[i])
}

/// The characters with the Unicode property White_Space.
pub open spec fn is_white_space(c: char) -> bool {
    let n = c as int;
    ||| 0x09 <= n <= 0x0d
    ||| n == 0x20
    ||| n == 0x85
    ||| n == 0xa0
    ||| n == 0x1680
    ||| 0x2000 <= n <= 0x200a
    ||| n == 0x2028
    ||| n == 0x2029
    ||| n == 0x202f
    ||| n == 0x205f
    ||| n == 0x3000
}

/// The text without the white space at its end.
pub open spec fn trimmed_end(s: Seq<char>) -> Seq<char>
    decreases s.len(),
{
    if s.len() == 0 || !is_white_space(s.last()) {
        s
    } else {
        trimmed_end(s.drop_last())
    }
}

/// The text without the white space at its beginning.
pub open spec fn trimmed_start(s: Seq<char>) -> Seq<char>
    decreases s.len(),
{
    if s.len() == 0 || !is_white_space(s[0]) {
        s
    } else {
        trimmed_start(s.drop_first())
    }
}

/// The text without white space at either end.
pub open spec fn trimmed(s: Seq<char>) -> Seq<char> {
    trimmed_end(trimmed_start(s))
}

/// A character with the ASCII capitals turned into small letters.
pub open spec fn lower_char(c: char) -> char {
    if 65 <= c as int <= 90 {
        (c as int + 32) as char
    } else {
        c
    }
}

/// A text with the ASCII capitals turned into small letters.
pub open spec fn ascii_lower(s: Seq<char>) -> Seq<char> {
    Seq::new(s.len(), |i: int| lower_char(s[i]))
}

/// Whether every character of a text is an ASCII one.
pub open spec fn is_ascii_text(s: Seq<char>) -> bool {
    forall|i: int| 0 <= i < s.len() ==> (#[trigger] s[i]) as int <= 127
}

/// The text in small letters, by the tables of Unicode.
pub uninterp spec fn unicode_lower(s: Seq<char>) -> Seq<char>;

/// `str::to_lowercase` of the standard library: the text in small letters, by the tables of
/// Unicode. Claimed: the result depends on the text alone, and where the text is all ASCII only the
/// capitals change. What becomes of other characters is not stated.
pub assume_specification[ str::to_lowercase ](s: &str) -> (r: String)
    ensures
        r@ == unicode_lower(s@),
        is_ascii_text(s@) ==> r@ == ascii_lower(s@),
;

/// Texts that agree once ASCII case is ignored have the same small letters.
pub proof fn lemma_same_lower(a: Seq<char>, b: Seq<char>)
    ensures
        same_ignoring_case(a, b) <==> ascii_lower(a) == ascii_lower(b),
{
    if same_ignoring_case(a, b) {
        assert forall|i: int| 0 <= i < a.len() implies lower_char(#[trigger] a[i]) == lower_char(
            b[i],
        ) by {
            assert(folded(a[i]) == folded(b[i]));
        }
        assert(ascii_lower(a) =~= ascii_lower(b));
    }
    if ascii_lower(a) == ascii_lower(b) {
        assert(ascii_lower(a).len() == ascii_lower(b).len());
        assert forall|i: int| 0 <= i < a.len() implies folded(#[trigger] a[i]) == folded(b[i]) by {
            assert(ascii_lower(a)[i] == ascii_lower(b)[i]);
        }
    }
}

/// Agreeing once ASCII case is ignored goes both ways, and chains.
pub proof fn lemma_same_case_chain(a: Seq<char>, b: Seq<char>, c: Seq<char>)
    requires
        same_ignoring_case(a, b),
    ensures
        same_ignoring_case(b, a),
        same_ignoring_case(a, c) <==> same_ignoring_case(b, c),
{
    lemma_same_lower(a, b);
    lemma_same_lower(b, a);
    lemma_same_lower(a, c);
    lemma_same_lower(b, c);
}

/// Texts that agree once case is ignored are agreed with by the same texts.
pub proof fn lemma_same_case_alike(k: Seq<char>, a: Seq<char>, b: Seq<char>)
    requires
        same_ignoring_case(a, b),
    ensures
        same_ignoring_case(k, a) <==> same_ignoring_case(k, b),
{
    if same_ignoring_case(k, a) {
        lemma_same_case_chain(k, a, b);
    }
    if same_ignoring_case(k, b) {
        lemma_same_case_chain(k, b, a);
        lemma_same_case_chain(a, b, k);
    }
}

fn fold_char(c: char) -> (n: u32)
    ensures
        n == folded(c),
{
    let n: u32 = c as u32;
    if 65 <= n && n <= 90 {
        n + 32
    } else {
        n
    }
}

fn white_space(c: char) -> (r: bool)
    ensures
        r == is_white_space(c),
{
    let n: u32 = c as u32;
    (0x09 <= n && n <= 0x0d) || n == 0x20 || n == 0x85 || n == 0xa0 || n == 0x1680 || (0x2000 <= n
        && n <= 0x200a) || n == 0x2028 || n == 0x2029 || n == 0x202f || n == 0x205f || n == 0x3000
}

/// The characters of a text.
pub fn chars_of(s: &str) -> (v: Vec<char>)
    ensures
        v@ == s@,
{
    let mut v: Vec<char> = Vec::new();
    for c in it: s.chars()
        invariant
            v@ == it.seq().take(it.index() as int),
            it.seq() == s@,
    {
        v.push(c);
        assert(it.seq().take(it.index() + 1) =~= it.seq().take(it.index() as int).push(c));
    }
    assert(s@.take(s@.len() as int) =~= s@);
    v
}

/// `String::push` of the standard library: the text grows by the character, at its end.
pub assume_specification[ String::push ](s: &mut String, c: char)
    ensures
        final(s)@ == old(s)@.push(c),
;

/// The text made of some characters.
pub fn text_of(v: &Vec<char>) -> (r: String)
    ensures
        r@ == v@,
{
    let mut r = String::new();
    for i in 0..v.len()
        invariant
            r@ == v@.take(i as int),
    {
        r.push(v[i]);
        assert(v@.take(i + 1) =~= v@.take(i as int).push(v@[i as int]));
    }
    assert(v@.take(v@.len() as int) =~= v@);
    r
}

/// Whether two texts are the same.
pub fn same_text(a: &str, b: &str) -> (r: bool)
    ensures
        r == (a@ == b@),
{
    a.to_owned() == b.to_owned()
}

/// A character with the ASCII capitals turned into small letters.
pub fn to_lower_char(c: char) -> (r: char)
    ensures
        r == lower_char(c),
{
    let n: u32 = c as u32;
    if 65 <= n && n <= 90 {
        (n as u8 + 32) as char
    } else {
        c
    }
}

/// A text with the ASCII capitals turned into small letters.
pub fn to_lower(s: &str) -> (r: String)
    ensures
        r@ == ascii_lower(s@),
{
    let v = chars_of(s);
    let mut r = String::new();
    assert(r@ =~= ascii_lower(s@).take(0));
    for i in 0..v.len()
        invariant
            v@ == s@,
            r@ == ascii_lower(s@).take(i as int),
    {
        r.push(to_lower_char(v[i]));
        assert(ascii_lower(s@).take(i + 1) =~= ascii_lower(s@).take(i as int).push(
            lower_char(v@[i as int]),
        ));
    }
    assert(ascii_lower(s@).take(s@.len() as int) =~= ascii_lower(s@));
    r
}

/// Whether two texts agree once ASCII case is ignored.
pub fn eq_ignore_ascii_case(a: &str, b: &str) -> (r: bool)
    ensures
        r == same_ignoring_case(a@, b@),
{
    let x = chars_of(a);
    let y = chars_of(b);
    if x.len() != y.len() {
        return false;
    }
    for i in 0..x.len()
        invariant
            x@ == a@,
            y@ == b@,
            x.len() == y.len(),
            forall|j: int| 0 <= j < i ==> folded(#[trigger] a@[j]) == folded(b@[j]),
    {
        if fold_char(x[i]) != fold_char(y[i]) {
            assert(folded(a@[i as int]) != folded(b@[i as int]));
            return false;
        }
    }
    true
}

proof fn lemma_trimmed_start_filled(s: Seq<char>, i: int)
    requires
        0 <= i < s.len(),
        !is_white_space(s[i]),
    ensures
        trimmed_start(s).len() > 0,
        !is_white_space(trimmed_start(s)[0]),
    decreases s.len(),
{
    if is_white_space(s[0]) {
        lemma_trimmed_start_filled(s.drop_first(), i - 1);
    }
}

proof fn lemma_trimmed_end_filled(s: Seq<char>)
    requires
        s.len() > 0,
        !is_white_space(s[0]),
    ensures
        trimmed_end(s).len() > 0,
    decreases s.len(),
{
    if is_white_space(s.last()) {
        lemma_trimmed_end_filled(s.drop_last());
    }
}

/// A text with a character that is no white space is not blank.
pub proof fn lemma_not_blank(s: Seq<char>, i: int)
    requires
        0 <= i < s.len(),
        !is_white_space(s[i]),
    ensures
        trimmed(s).len() > 0,
{
    lemma_trimmed_start_filled(s, i);
    lemma_trimmed_end_filled(trimmed_start(s));
}

proof fn lemma_trimmed_start(s: Seq<char>, n: int)
    requires
        0 <= n <= s.len(),
        forall|j: int| 0 <= j < n ==> is_white_space(#[trigger] s[j]),
        n < s.len() ==> !is_white_space(s[n]),
    ensures
        trimmed_start(s) == s.skip(n),
    decreases n,
{
    if n == 0 {
        assert(s.skip(0) =~= s);
    } else {
        assert(is_white_space(s[0]));
        assert forall|j: int| 0 <= j < n - 1 implies is_white_space(#[trigger] s.drop_first()[j]) by {
            assert(s.drop_first()[j] == s[j + 1]);
        }
        lemma_trimmed_start(s.drop_first(), n - 1);
        assert(s.drop_first().skip(n - 1) =~= s.skip(n));
    }
}

proof fn lemma_trimmed_end(s: Seq<char>, n: int)
    requires
        0 <= n <= s.len(),
        forall|j: int| n <= j < s.len() ==> is_white_space(#[trigger] s[j]),
        0 < n ==> !is_white_space(s[n - 1]),
    ensures
        trimmed_end(s) == s.take(n),
    decreases s.len() - n,
{
    if n == s.len() {
        assert(s.take(n) =~= s);
    } else {
        lemma_trimmed_end(s.drop_last(), n);
        assert(s.drop_last().take(n) =~= s.take(n));
    }
}

/// The text without white space at either end.
pub fn trim(s: &str) -> (r: &str)
    ensures
        r@ == trimmed(s@),
{
    let v = chars_of(s);
    let mut from: usize = 0;
    while from < v.len() && white_space(v[from])
        invariant
            from <= v.len(),
            v@ == s@,
            forall|j: int| 0 <= j < from ==> is_white_space(#[trigger] v@[j]),
        decreases v.len() - from,
    {
        from = from + 1;
    }
    let mut to: usize = v.len();
    while to > from && white_space(v[to - 1])
        invariant
            from <= to <= v.len(),
            v@ == s@,
            forall|j: int| to <= j < v.len() ==> is_white_space(#[trigger] v@[j]),
        decreases to,
    {
        to = to - 1;
    }
    proof {
        lemma_trimmed_start(s@, from as int);
        let t = s@.skip(from as int);
        assert forall|j: int| to - from <= j < t.len() implies is_white_space(#[trigger] t[j]) by {
            assert(t[j] == v@[j + from]);
        }
        lemma_trimmed_end(t, to - from);
        assert(t.take(to - from) =~= s@.subrange(from as int, to as int));
    }
    s.substring_char(from, to)
}

/// Which of two texts comes first by the codes of their characters: negative for `a`, positive for
/// `b`, zero where they are the same. A text comes before its continuations.
pub open spec fn text_rank(a: Seq<char>, b: Seq<char>) -> int
    decreases a.len(),
{
    if a.len() == 0 {
        if b.len() == 0 {
            0
        } else {
            -1
        }
    } else if b.len() == 0 {
        1
    } else if (a[0] as int) < (b[0] as int) {
        -1
    } else if (a[0] as int) > (b[0] as int) {
        1
    } else {
        text_rank(a.drop_first(), b.drop_first())
    }
}

/// Only equal texts stand equal, and swapping the texts changes the sign.
pub proof fn lemma_text_rank(a: Seq<char>, b: Seq<char>)
    ensures
        -1 <= text_rank(a, b) <= 1,
        text_rank(a, b) == 0 <==> a == b,
        text_rank(a, b) == -text_rank(b, a),
    decreases a.len(),
{
    if a.len() > 0 && b.len() > 0 {
        lemma_text_rank(a.drop_first(), b.drop_first());
        if a[0] == b[0] && a.drop_first() == b.drop_first() {
            assert(a =~= seq![a[0]] + a.drop_first());
            assert(b =~= seq![b[0]] + b.drop_first());
        }
    } else if a.len() == 0 && b.len() == 0 {
        assert(a =~= b);
    }
}

/// The order of texts is transitive.
pub proof fn lemma_text_rank_chain(a: Seq<char>, b: Seq<char>, c: Seq<char>)
    requires
        text_rank(a, b) <= 0,
        text_rank(b, c) <= 0,
    ensures
        text_rank(a, c) <= 0,
        text_rank(a, b) < 0 || text_rank(b, c) < 0 ==> text_rank(a, c) < 0,
    decreases a.len(),
{
    if a.len() > 0 && b.len() > 0 && c.len() > 0 && a[0] as int == b[0] as int && b[0] as int == c[0] as int {
        lemma_text_rank_chain(a.drop_first(), b.drop_first(), c.drop_first());
    }
}

/// The code of a character.
pub fn code_of(c: char) -> (n: u32)
    ensures
        n == c as int,
{
    c as u32
}

/// Which of two texts comes first by the codes of their characters.
pub fn rank_texts(a: &str, b: &str) -> (r: i8)
    ensures
        r == text_rank(a@, b@),
{
    let x = chars_of(a);
    let y = chars_of(b);
    let mut i: usize = 0;
    assert(a@.skip(0) =~= a@);
    assert(b@.skip(0) =~= b@);
    while i < x.len() && i < y.len()
        invariant
            x@ == a@,
            y@ == b@,
            i <= x.len(),
            i <= y.len(),
            text_rank(a@, b@) == text_rank(a@.skip(i as int), b@.skip(i as int)),
        decreases x.len() - i,
    {
        let p: u32 = code_of(x[i]);
        let q: u32 = code_of(y[i]);
        if p < q {
            return -1;
        }
        if p > q {
            return 1;
        }
        assert(a@.skip(i as int).drop_first() =~= a@.skip(i + 1));
        assert(b@.skip(i as int).drop_first() =~= b@.skip(i + 1));
        i = i + 1;
    }
    if i < y.len() {
        -1
    } else if i < x.len() {
        1
    } else {
        0
    }
}

/// Which of two lists of texts comes first, by the first texts in which they differ.
pub open spec fn list_rank(a: Seq<Seq<char>>, b: Seq<Seq<char>>) -> int
    decreases a.len(),
{
    if a.len() == 0 {
        if b.len() == 0 {
            0
        } else {
            -1
        }
    } else if b.len() == 0 {
        1
    } else if text_rank(a[0], b[0]) != 0 {
        text_rank(a[0], b[0])
    } else {
        list_rank(a.drop_first(), b.drop_first())
    }
}

/// Only equal lists stand equal, and swapping the lists changes the sign.
pub proof fn lemma_list_rank(a: Seq<Seq<char>>, b: Seq<Seq<char>>)
    ensures
        -1 <= list_rank(a, b) <= 1,
        list_rank(a, b) == 0 <==> a == b,
        list_rank(a, b) == -list_rank(b, a),
    decreases a.len(),
{
    if a.len() > 0 && b.len() > 0 {
        lemma_text_rank(a[0], b[0]);
        lemma_list_rank(a.drop_first(), b.drop_first());
        if a[0] == b[0] && a.drop_first() == b.drop_first() {
            assert(a =~= seq![a[0]] + a.drop_first());
            assert(b =~= seq![b[0]] + b.drop_first());
        }
    } else if a.len() == 0 && b.len() == 0 {
        assert(a =~= b);
    }
}

/// The order of lists is transitive.
pub proof fn lemma_list_rank_chain(a: Seq<Seq<char>>, b: Seq<Seq<char>>, c: Seq<Seq<char>>)
    requires
        list_rank(a, b) <= 0,
        list_rank(b, c) <= 0,
    ensures
        list_rank(a, c) <= 0,
        list_rank(a, b) < 0 || list_rank(b, c) < 0 ==> list_rank(a, c) < 0,
    decreases a.len(),
{
    if a.len() > 0 && b.len() > 0 && c.len() > 0 {
        lemma_text_rank(a[0], b[0]);
        lemma_text_rank(b[0], c[0]);
        lemma_text_rank_chain(a[0], b[0], c[0]);
        if a[0] == b[0] && b[0] == c[0] {
            lemma_list_rank_chain(a.drop_first(), b.drop_first(), c.drop_first());
        }
    }
}

/// Which of two lists of texts comes first.
pub fn rank_lists(a: &Vec<String>, b: &Vec<String>) -> (r: i8)
    ensures
        r == list_rank(crate::lists::texts(a@), crate::lists::texts(b@)),
{
    let ghost s = crate::lists::texts(a@);
    let ghost t = crate::lists::texts(b@);
    let mut i: usize = 0;
    assert(s.skip(0) =~= s);
    assert(t.skip(0) =~= t);
    while i < a.len() && i < b.len()
        invariant
            s == crate::lists::texts(a@),
            t == crate::lists::texts(b@),
            i <= a.len(),
            i <= b.len(),
            list_rank(s, t) == list_rank(s.skip(i as int), t.skip(i as int)),
        decreases a.len() - i,
    {
        let r: i8 = rank_texts(a[i].as_str(), b[i].as_str());
        assert(s.skip(i as int)[0] == a@[i as int]@);
        assert(t.skip(i as int)[0] == b@[i as int]@);
        if r != 0 {
            return r;
        }
        assert(s.skip(i as int).drop_first() =~= s.skip(i + 1));
        assert(t.skip(i as int).drop_first() =~= t.skip(i + 1));
        i = i + 1;
    }
    if i < b.len() {
        -1
    } else if i < a.len() {
        1
    } else {
        0
    }
}

/// A text comes first exactly where, at the first place at which the two differ, it has ended or has
/// the character with the smaller code.
pub proof fn lemma_text_order(a: Seq<char>, b: Seq<char>)
    ensures
        text_rank(a, b) < 0 <==> exists|n: int|
            {
                &&& 0 <= n < b.len()
                &&& n <= a.len()
                &&& a.take(n) == #[trigger] b.take(n)
                &&& n == a.len() || (a[n] as int) < (b[n] as int)
            },
    decreases a.len(),
{
    if a.len() > 0 && b.len() > 0 {
        let c = a.drop_first();
        let d = b.drop_first();
        lemma_text_order(c, d);
        if a[0] == b[0] && text_rank(c, d) < 0 {
            let n = choose|n: int|
                {
                    &&& 0 <= n < d.len()
                    &&& n <= c.len()
                    &&& c.take(n) == #[trigger] d.take(n)
                    &&& n == c.len() || (c[n] as int) < (d[n] as int)
                };
            assert(a.take(n + 1) =~= seq![a[0]] + c.take(n));
            assert(b.take(n + 1) =~= seq![b[0]] + d.take(n));
            assert(a.take(n + 1) == b.take(n + 1));
        }
        if (a[0] as int) < (b[0] as int) {
            assert(a.take(0) =~= b.take(0));
        }
        if exists|n: int|
            {
                &&& 0 <= n < b.len()
                &&& n <= a.len()
                &&& a.take(n) == #[trigger] b.take(n)
                &&& n == a.len() || (a[n] as int) < (b[n] as int)
            } {
            let n = choose|n: int|
                {
                    &&& 0 <= n < b.len()
                    &&& n <= a.len()
                    &&& a.take(n) == #[trigger] b.take(n)
                    &&& n == a.len() || (a[n] as int) < (b[n] as int)
                };
            if n > 0 {
                assert(a.take(n)[0] == b.take(n)[0]);
                assert(c.take(n - 1) =~= a.take(n).drop_first());
                assert(d.take(n - 1) =~= b.take(n).drop_first());
                assert(c.take(n - 1) == d.take(n - 1));
            }
        }
    } else if b.len() > 0 {
        assert(a.take(0) =~= b.take(0));
    }
}

/// A list of texts comes first exactly where, at the first place at which the two differ, it has ended
/// or has the text that comes first.
pub proof fn lemma_list_order(a: Seq<Seq<char>>, b: Seq<Seq<char>>)
    ensures
        list_rank(a, b) < 0 <==> exists|n: int|
            {
                &&& 0 <= n < b.len()
                &&& n <= a.len()
                &&& a.take(n) == #[trigger] b.take(n)
                &&& n == a.len() || text_rank(a[n], b[n]) < 0
            },
    decreases a.len(),
{
    if a.len() > 0 && b.len() > 0 {
        let c = a.drop_first();
        let d = b.drop_first();
        lemma_list_order(c, d);
        lemma_text_rank(a[0], b[0]);
        if a[0] == b[0] && list_rank(c, d) < 0 {
            let n = choose|n: int|
                {
                    &&& 0 <= n < d.len()
                    &&& n <= c.len()
                    &&& c.take(n) == #[trigger] d.take(n)
                    &&& n == c.len() || text_rank(c[n], d[n]) < 0
                };
            assert(a.take(n + 1) =~= seq![a[0]] + c.take(n));
            assert(b.take(n + 1) =~= seq![b[0]] + d.take(n));
            assert(a.take(n + 1) == b.take(n + 1));
        }
        if text_rank(a[0], b[0]) < 0 {
            assert(a.take(0) =~= b.take(0));
        }
        if exists|n: int|
            {
                &&& 0 <= n < b.len()
                &&& n <= a.len()
                &&& a.take(n) == #[trigger] b.take(n)
                &&& n == a.len() || text_rank(a[n], b[n]) < 0
            } {
            let n = choose|n: int|
                {
                    &&& 0 <= n < b.len()
                    &&& n <= a.len()
                    &&& a.take(n) == #[trigger] b.take(n)
                    &&& n == a.len() || text_rank(a[n], b[n]) < 0
                };
            if n > 0 {
                assert(a.take(n)[0] == b.take(n)[0]);
                assert(c.take(n - 1) =~= a.take(n).drop_first());
                assert(d.take(n - 1) =~= b.take(n).drop_first());
                assert(c.take(n - 1) == d.take(n - 1));
            }
        }
    } else if b.len() > 0 {
        assert(a.take(0) =~= b.take(0));
    }
}

proof fn lemma_start_trimmed(s: Seq<char>) -> (n: int)
    ensures
        0 <= n <= s.len(),
        trimmed_start(s) == s.skip(n),
        forall|i: int| 0 <= i < n ==> is_white_space(#[trigger] s[i]),
        n < s.len() ==> !is_white_space(s[n]),
    decreases s.len(),
{
    if s.len() == 0 || !is_white_space(s[0]) {
        assert(s.skip(0) =~= s);
        0
    } else {
        let r = s.drop_first();
        let n = lemma_start_trimmed(r);
        assert(r.skip(n) =~= s.skip(n + 1));
        assert forall|i: int| 0 <= i < n + 1 implies is_white_space(#[trigger] s[i]) by {
            if i > 0 {
                assert(is_white_space(r[i - 1]));
            }
        }
        n + 1
    }
}

proof fn lemma_end_trimmed(s: Seq<char>) -> (n: int)
    ensures
        0 <= n <= s.len(),
        trimmed_end(s) == s.take(n),
        forall|i: int| n <= i < s.len() ==> is_white_space(#[trigger] s[i]),
        n > 0 ==> !is_white_space(s[n - 1]),
    decreases s.len(),
{
    if s.len() == 0 || !is_white_space(s.last()) {
        assert(s.take(s.len() as int) =~= s);
        s.len() as int
    } else {
        let r = s.drop_last();
        let n = lemma_end_trimmed(r);
        assert(r.take(n) =~= s.take(n));
        assert forall|i: int| n <= i < s.len() implies is_white_space(#[trigger] s[i]) by {
            if i < r.len() {
                assert(is_white_space(r[i]));
            }
        }
        n
    }
}

/// A trimmed text is a part of the text with nothing but white space before and behind it, and has
/// white space neither at its beginning nor at its end.
pub proof fn lemma_trimmed_part(s: Seq<char>)
    ensures
        exists|i: int, j: int|
            {
                &&& 0 <= i <= j <= s.len()
                &&& trimmed(s) == #[trigger] s.subrange(i, j)
                &&& forall|n: int| 0 <= n < i ==> is_white_space(#[trigger] s[n])
                &&& forall|n: int| j <= n < s.len() ==> is_white_space(#[trigger] s[n])
            },
        trimmed(s).len() > 0 ==> !is_white_space(trimmed(s)[0]) && !is_white_space(
            trimmed(s).last(),
        ),
{
    let i = lemma_start_trimmed(s);
    let t = trimmed_start(s);
    let n = lemma_end_trimmed(t);
    let j = i + n;
    assert(t.take(n) =~= s.subrange(i, j));
    assert forall|m: int| j <= m < s.len() implies is_white_space(#[trigger] s[m]) by {
        assert(is_white_space(t[m - i]));
    }
}

} // verus!
