//! The network interfaces of the machine.

use vstd::prelude::*;

use crate::lists;
use crate::sorting;
use crate::text;

verus! {

/// A network interface.
#[derive(Debug)]
pub struct Interface {
    pub ifindex: u32,
    pub name: String,
    pub zone: String,
    pub parent_ifindex: Option<u32>,
    pub ipv4_cidrs: Vec<String>,
    pub ipv6_cidrs: Vec<String>,
}

/// A network interface, with texts as characters.
#[verifier::ext_equal]
pub struct IfaceInfo {
    pub ifindex: u32,
    pub name: Seq<char>,
    pub zone: Seq<char>,
    pub parent_ifindex: Option<u32>,
    pub ipv4_cidrs: Seq<Seq<char>>,
    pub ipv6_cidrs: Seq<Seq<char>>,
}

impl View for Interface {
    type V = IfaceInfo;

    open spec fn view(&self) -> IfaceInfo {
        IfaceInfo {
            ifindex: self.ifindex,
            name: self.name@,
            zone: self.zone@,
            parent_ifindex: self.parent_ifindex,
            ipv4_cidrs: lists::texts(self.ipv4_cidrs@),
            ipv6_cidrs: lists::texts(self.ipv6_cidrs@),
        }
    }
}

impl Clone for Interface {
    fn clone(&self) -> (r: Self)
        ensures
            r@ == self@,
    {
        Interface {
            ifindex: self.ifindex,
            name: self.name.clone(),
            zone: self.zone.clone(),
            parent_ifindex: self.parent_ifindex,
            ipv4_cidrs: lists::copy_texts(&self.ipv4_cidrs),
            ipv6_cidrs: lists::copy_texts(&self.ipv6_cidrs),
        }
    }
}

impl Interface {
    /// The name of the zone that the interface belongs to.
    pub fn zone_name(&self) -> (r: &str)
        ensures
            r@ == self@.zone,
    {
        self.zone.as_str()
    }
}

/// The first interface with an index.
pub open spec fn with_index(t: Seq<IfaceInfo>, ifindex: u32) -> Option<IfaceInfo>
    decreases t.len(),
{
    if t.len() == 0 {
        None
    } else if t[0].ifindex == ifindex {
        Some(t[0])
    } else {
        with_index(t.drop_first(), ifindex)
    }
}

/// The index of the first interface with a name.
pub open spec fn index_named(t: Seq<IfaceInfo>, name: Seq<char>) -> Option<u32>
    decreases t.len(),
{
    if t.len() == 0 {
        None
    } else if t[0].name == name {
        Some(t[0].ifindex)
    } else {
        index_named(t.drop_first(), name)
    }
}

/// The interfaces at one time.
#[derive(Debug)]
pub struct TopologySnapshot {
    interfaces: Vec<Interface>,
}

impl View for TopologySnapshot {
    type V = Seq<IfaceInfo>;

    closed spec fn view(&self) -> Seq<IfaceInfo> {
        sorting::views(self.interfaces@)
    }
}

impl Clone for TopologySnapshot {
    fn clone(&self) -> (r: Self)
        ensures
            r@ == self@,
    {
        let mut interfaces: Vec<Interface> = Vec::new();
        for i in 0..self.interfaces.len()
            invariant
                interfaces@.len() == i,
                forall|j: int| 0 <= j < i ==> (#[trigger] interfaces@[j])@ == self.interfaces@[j]@,
        {
            interfaces.push(self.interfaces[i].clone());
        }
        assert(sorting::views(interfaces@) =~= sorting::views(self.interfaces@));
        TopologySnapshot { interfaces }
    }
}

impl TopologySnapshot {
    /// The topology of some interfaces.
    pub fn from_interfaces(interfaces: Vec<Interface>) -> (r: Self)
        ensures
            r@ == sorting::views(interfaces@),
    {
        TopologySnapshot { interfaces }
    }

    /// The interfaces.
    pub fn interfaces(&self) -> (r: &Vec<Interface>)
        ensures
            sorting::views(r@) == self@,
    {
        &self.interfaces
    }

    /// The first interface with an index.
    pub fn by_ifindex(&self, ifindex: u32) -> (r: Option<&Interface>)
        ensures
            match r {
                Some(x) => with_index(self@, ifindex) == Some(x@),
                None => with_index(self@, ifindex) is None,
            },
    {
        assert(self@.skip(0) =~= self@);
        for i in 0..self.interfaces.len()
            invariant
                self@.len() == self.interfaces@.len(),
                with_index(self@, ifindex) == with_index(self@.skip(i as int), ifindex),
        {
            assert(self@.skip(i as int)[0] == self.interfaces@[i as int]@);
            assert(self@.skip(i as int).drop_first() =~= self@.skip(i + 1));
            if self.interfaces[i].ifindex == ifindex {
                return Some(&self.interfaces[i]);
            }
        }
        None
    }

    /// The index of the first interface with a name.
    pub fn ifindex_by_name(&self, name: &str) -> (r: Option<u32>)
        ensures
            r == index_named(self@, name@),
    {
        assert(self@.skip(0) =~= self@);
        for i in 0..self.interfaces.len()
            invariant
                self@.len() == self.interfaces@.len(),
                index_named(self@, name@) == index_named(self@.skip(i as int), name@),
        {
            assert(self@.skip(i as int)[0] == self.interfaces@[i as int]@);
            assert(self@.skip(i as int).drop_first() =~= self@.skip(i + 1));
            if text::same_text(self.interfaces[i].name.as_str(), name) {
                return Some(self.interfaces[i].ifindex);
            }
        }
        None
    }
}

/// An interface that is found by an index has it, and is one of the topology.
pub proof fn lemma_with_index(t: Seq<IfaceInfo>, ifindex: u32)
    ensures
        match with_index(t, ifindex) {
            Some(x) => x.ifindex == ifindex && t.contains(x),
            None => forall|i: int| 0 <= i < t.len() ==> (#[trigger] t[i]).ifindex != ifindex,
        },
    decreases t.len(),
{
    if t.len() > 0 && t[0].ifindex != ifindex {
        let r = t.drop_first();
        lemma_with_index(r, ifindex);
        if let Some(x) = with_index(r, ifindex) {
            let n = choose|n: int| 0 <= n < r.len() && r[n] == x;
            assert(t[n + 1] == x);
        } else {
            assert forall|i: int| 0 <= i < t.len() implies (#[trigger] t[i]).ifindex != ifindex by {
                if i > 0 {
                    assert(r[i - 1].ifindex != ifindex);
                }
            }
        }
    }
}

/// The number that decimal digits stand for.
pub open spec fn decimal(s: Seq<char>) -> int
    decreases s.len(),
{
    if s.len() == 0 {
        0
    } else {
        decimal(s.drop_last()) * 10 + (s.last() as int - 48)
    }
}

/// Whether a text is a decimal number of at most three digits, without a zero in front.
pub open spec fn is_decimal(s: Seq<char>) -> bool {
    &&& 1 <= s.len() <= 3
    &&& forall|i: int| 0 <= i < s.len() ==> 48 <= #[trigger] s[i] as int <= 57
    &&& s.len() > 1 ==> s[0] != '0'
}

/// The parts of a text between separators.
pub open spec fn split(s: Seq<char>, sep: char) -> Seq<Seq<char>>
    decreases s.len(),
{
    if s.len() == 0 {
        seq![Seq::empty()]
    } else {
        let rest = split(s.drop_last(), sep);
        if s.last() == sep {
            rest.push(Seq::empty())
        } else {
            rest.update(rest.len() - 1, rest.last().push(s.last()))
        }
    }
}

/// The number of a dotted address of four bytes.
pub open spec fn ipv4_number(s: Seq<char>) -> Option<int> {
    let p = split(s, '.');
    if p.len() == 4 && (forall|i: int|
        0 <= i < 4 ==> is_decimal(#[trigger] p[i]) && decimal(p[i]) <= 255) {
        Some(
            ((decimal(p[0]) * 256 + decimal(p[1])) * 256 + decimal(p[2])) * 256 + decimal(p[3]),
        )
    } else {
        None
    }
}

/// The number of addresses that share a prefix of a length.
pub open spec fn prefix_span(len: int) -> int {
    vstd::arithmetic::power2::pow2((32 - len) as nat) as int
}

/// Whether an address lies in a range that is written as an address, a slash and the length of the
/// prefix that they share.
pub open spec fn in_cidr(ip: Seq<char>, cidr: Seq<char>) -> bool {
    let p = split(cidr, '/');
    &&& p.len() == 2
    &&& is_decimal(p[1])
    &&& decimal(p[1]) <= 32
    &&& ipv4_number(ip) is Some
    &&& ipv4_number(p[0]) is Some
    &&& ipv4_number(ip).unwrap() / prefix_span(decimal(p[1])) == ipv4_number(p[0]).unwrap()
        / prefix_span(decimal(p[1]))
}

/// The views of lists of characters.
spec fn parts_of(v: Seq<Vec<char>>) -> Seq<Seq<char>> {
    Seq::new(v.len(), |i: int| v[i]@)
}

fn split_chars(v: &Vec<char>, sep: char) -> (r: Vec<Vec<char>>)
    ensures
        parts_of(r@) == split(v@, sep),
        r@.len() > 0,
{
    let mut r: Vec<Vec<char>> = Vec::new();
    let mut part: Vec<char> = Vec::new();
    assert(v@.take(0) =~= Seq::<char>::empty());
    assert(parts_of(r@).push(part@) =~= seq![Seq::<char>::empty()]);
    for i in 0..v.len()
        invariant
            parts_of(r@).push(part@) == split(v@.take(i as int), sep),
    {
        assert(v@.take(i + 1).drop_last() =~= v@.take(i as int));
        let ghost before = parts_of(r@);
        let c = v[i];
        if c == sep {
            let ghost p = part@;
            r.push(part);
            part = Vec::new();
            assert(parts_of(r@) =~= before.push(p));
            assert(part@ =~= Seq::<char>::empty());
        } else {
            let ghost p = part@;
            part.push(c);
            assert(before.push(part@) =~= before.push(p).update(before.len() as int, p.push(c)));
        }
    }
    assert(v@.take(v@.len() as int) =~= v@);
    let ghost before = parts_of(r@);
    let ghost p = part@;
    r.push(part);
    assert(parts_of(r@) =~= before.push(p));
    r
}

fn read_decimal(v: &Vec<char>) -> (r: Option<u32>)
    ensures
        match r {
            Some(n) => is_decimal(v@) && n == decimal(v@) && n <= 999,
            None => !is_decimal(v@),
        },
{
    if v.len() == 0 || v.len() > 3 || (v.len() > 1 && v[0] == '0') {
        return None;
    }
    let mut n: u32 = 0;
    assert(v@.take(0) =~= Seq::<char>::empty());
    for i in 0..v.len()
        invariant
            v@.len() <= 3,
            forall|j: int| 0 <= j < i ==> 48 <= #[trigger] v@[j] as int <= 57,
            n == decimal(v@.take(i as int)),
            i == 0 ==> n == 0,
            i == 1 ==> n <= 9,
            i == 2 ==> n <= 99,
            i == 3 ==> n <= 999,
    {
        assert(v@.take(i + 1).drop_last() =~= v@.take(i as int));
        let c: u32 = text::code_of(v[i]);
        if c < 48 || c > 57 {
            assert(!(48 <= v@[i as int] as int <= 57));
            return None;
        }
        n = n * 10 + (c - 48);
    }
    assert(v@.take(v@.len() as int) =~= v@);
    Some(n)
}

fn read_ipv4(v: &Vec<char>) -> (r: Option<u32>)
    ensures
        match r {
            Some(n) => ipv4_number(v@) == Some(n as int),
            None => ipv4_number(v@) is None,
        },
{
    let p = split_chars(v, '.');
    let ghost parts = split(v@, '.');
    if p.len() != 4 {
        assert(parts.len() != 4);
        return None;
    }
    let mut bytes: Vec<u32> = Vec::new();
    for i in 0..4usize
        invariant
            parts == split(v@, '.'),
            parts_of(p@) == parts,
            p@.len() == 4,
            bytes@.len() == i,
            forall|j: int|
                0 <= j < i ==> is_decimal(#[trigger] parts[j]) && decimal(parts[j]) <= 255,
            forall|j: int| 0 <= j < i ==> #[trigger] bytes@[j] == decimal(parts[j]),
    {
        assert(parts[i as int] == p@[i as int]@);
        match read_decimal(&p[i]) {
            Some(b) => {
                if b > 255 {
                    assert(decimal(parts[i as int]) > 255);
                    return None;
                }
                bytes.push(b);
            },
            None => {
                assert(!is_decimal(parts[i as int]));
                return None;
            },
        }
    }
    assert(bytes@[0] == decimal(parts[0]) && bytes@[1] == decimal(parts[1]) && bytes@[2] == decimal(
        parts[2],
    ) && bytes@[3] == decimal(parts[3]));
    let n: u32 = ((bytes[0] * 256 + bytes[1]) * 256 + bytes[2]) * 256 + bytes[3];
    Some(n)
}

fn span_of(len: u32) -> (r: u64)
    requires
        len <= 32,
    ensures
        r == prefix_span(len as int),
        1 <= r <= 0x1_0000_0000,
{
    let mut r: u64 = 1;
    proof {
        vstd::arithmetic::power2::lemma2_to64();
    }
    for k in 0..32 - len
        invariant
            len <= 32,
            r == vstd::arithmetic::power2::pow2(k as nat),
            1 <= r <= 0x1_0000_0000,
    {
        proof {
            vstd::arithmetic::power2::lemma2_to64();
            vstd::arithmetic::power2::lemma_pow2_unfold((k + 1) as nat);
            if k + 1 < 32 {
                vstd::arithmetic::power2::lemma_pow2_strictly_increases((k + 1) as nat, 32);
            }
        }
        r = r * 2;
    }
    r
}

/// Whether an address lies in a range that is written as an address, a slash and the length of the
/// prefix that they share.
pub fn ipv4_in_cidr(ip: &str, cidr: &str) -> (r: bool)
    ensures
        r == in_cidr(ip@, cidr@),
{
    let p = split_chars(&text::chars_of(cidr), '/');
    if p.len() != 2 {
        assert(split(cidr@, '/').len() != 2);
        return false;
    }
    assert(split(cidr@, '/')[0] == p@[0]@ && split(cidr@, '/')[1] == p@[1]@);
    let Some(len) = read_decimal(&p[1]) else {
        return false;
    };
    if len > 32 {
        return false;
    }
    let Some(a) = read_ipv4(&text::chars_of(ip)) else {
        return false;
    };
    let Some(b) = read_ipv4(&p[0]) else {
        return false;
    };
    let span: u64 = span_of(len);
    a as u64 / span == b as u64 / span
}

/// Every address lies in the range with no prefix, and only the address itself in the range with the
/// whole of it as prefix.
pub proof fn lemma_in_cidr_ends(ip: Seq<char>, cidr: Seq<char>)
    requires
        ipv4_number(ip) is Some,
        split(cidr, '/').len() == 2,
        ipv4_number(split(cidr, '/')[0]) is Some,
        is_decimal(split(cidr, '/')[1]),
    ensures
        decimal(split(cidr, '/')[1]) == 0 ==> in_cidr(ip, cidr),
        decimal(split(cidr, '/')[1]) == 32 ==> (in_cidr(ip, cidr) <==> ipv4_number(ip)
            == ipv4_number(split(cidr, '/')[0])),
{
    vstd::arithmetic::power2::lemma2_to64();
    lemma_ipv4_range(ip);
    lemma_ipv4_range(split(cidr, '/')[0]);
    let a = ipv4_number(ip).unwrap();
    let b = ipv4_number(split(cidr, '/')[0]).unwrap();
    assert(prefix_span(0) == 0x1_0000_0000);
    assert(prefix_span(32) == 1);
    assert(a / 0x1_0000_0000 == 0 && b / 0x1_0000_0000 == 0);
    assert(a / 1 == a && b / 1 == b);
}

proof fn lemma_ipv4_range(s: Seq<char>)
    ensures
        ipv4_number(s) is Some ==> 0 <= ipv4_number(s).unwrap() < 0x1_0000_0000,
{
    let p = split(s, '.');
    if ipv4_number(s) is Some {
        assert forall|i: int| 0 <= i < 4 implies 0 <= decimal(#[trigger] p[i]) <= 255 by {
            lemma_decimal_positive(p[i]);
        }
        assert(0 <= decimal(p[0]) <= 255 && 0 <= decimal(p[1]) <= 255 && 0 <= decimal(p[2]) <= 255
            && 0 <= decimal(p[3]) <= 255);
    }
}

proof fn lemma_decimal_positive(s: Seq<char>)
    requires
        forall|i: int| 0 <= i < s.len() ==> 48 <= #[trigger] s[i] as int <= 57,
    ensures
        decimal(s) >= 0,
    decreases s.len(),
{
    if s.len() > 0 {
        let h = s.drop_last();
        assert forall|i: int| 0 <= i < h.len() implies 48 <= #[trigger] h[i] as int <= 57 by {
            assert(48 <= s[i] as int <= 57);
        }
        assert(48 <= s[s.len() - 1] as int <= 57);
        lemma_decimal_positive(h);
    }
}

/// A text without a separator is its own only part. Behind a separator a new part begins, which goes on
/// until the next one.
pub proof fn lemma_split_parts(a: Seq<char>, b: Seq<char>, sep: char)
    requires
        !b.contains(sep),
    ensures
        split(b, sep) == seq![b],
        split(a.push(sep) + b, sep) == split(a, sep).push(b),
    decreases b.len(),
{
    if b.len() == 0 {
        assert(a.push(sep) + b =~= a.push(sep));
        assert(a.push(sep).drop_last() =~= a);
        assert(b =~= Seq::empty());
    } else {
        let c = b.drop_last();
        assert(!c.contains(sep)) by {
            if c.contains(sep) {
                let n = choose|n: int| 0 <= n < c.len() && c[n] == sep;
                assert(b[n] == sep);
            }
        }
        lemma_split_parts(a, c, sep);
        assert(b[b.len() - 1] != sep);
        assert(c.push(b.last()) =~= b);
        assert((a.push(sep) + b).drop_last() =~= a.push(sep) + c);
        assert((a.push(sep) + b).last() == b.last());
        assert(split(b, sep) =~= seq![b]);
        assert(split(a.push(sep) + b, sep) =~= split(a, sep).push(b));
    }
}

proof fn lemma_leading_bytes(a: int, b: int, c: int, d: int)
    requires
        0 <= a <= 255,
        0 <= b <= 255,
        0 <= c <= 255,
        0 <= d <= 255,
    ensures
        ({
            let n = ((a * 256 + b) * 256 + c) * 256 + d;
            &&& n / 0x100_0000 == a
            &&& n / 0x1_0000 == a * 256 + b
            &&& n / 0x100 == (a * 256 + b) * 256 + c
        }),
{
}

/// With a prefix of eight, sixteen or twenty-four, a range holds exactly the addresses that have the
/// first one, two or three bytes of its address.
pub proof fn lemma_in_cidr_bytes(ip: Seq<char>, cidr: Seq<char>)
    requires
        ipv4_number(ip) is Some,
        split(cidr, '/').len() == 2,
        ipv4_number(split(cidr, '/')[0]) is Some,
        is_decimal(split(cidr, '/')[1]),
    ensures
        ({
            let a = split(ip, '.');
            let b = split(split(cidr, '/')[0], '.');
            let len = decimal(split(cidr, '/')[1]);
            let one = decimal(a[0]) == decimal(b[0]);
            let two = one && decimal(a[1]) == decimal(b[1]);
            let three = two && decimal(a[2]) == decimal(b[2]);
            &&& len == 8 ==> (in_cidr(ip, cidr) <==> one)
            &&& len == 16 ==> (in_cidr(ip, cidr) <==> two)
            &&& len == 24 ==> (in_cidr(ip, cidr) <==> three)
            &&& len > 32 ==> !in_cidr(ip, cidr)
        }),
{
    let a = split(ip, '.');
    let b = split(split(cidr, '/')[0], '.');
    let len = decimal(split(cidr, '/')[1]);
    lemma_parts_are_bytes(ip);
    lemma_parts_are_bytes(split(cidr, '/')[0]);
    lemma_leading_bytes(decimal(a[0]), decimal(a[1]), decimal(a[2]), decimal(a[3]));
    lemma_leading_bytes(decimal(b[0]), decimal(b[1]), decimal(b[2]), decimal(b[3]));
    assert(prefix_span(8) == 0x100_0000 && prefix_span(16) == 0x1_0000 && prefix_span(24) == 0x100) by {
        vstd::arithmetic::power2::lemma2_to64();
    }
    let m = ipv4_number(ip).unwrap();
    let n = ipv4_number(split(cidr, '/')[0]).unwrap();
    assert(len <= 32 ==> (in_cidr(ip, cidr) <==> m / prefix_span(len) == n / prefix_span(len)));
}

proof fn lemma_parts_are_bytes(s: Seq<char>)
    requires
        ipv4_number(s) is Some,
    ensures
        ({
            let p = split(s, '.');
            &&& 0 <= decimal(p[0]) <= 255
            &&& 0 <= decimal(p[1]) <= 255
            &&& 0 <= decimal(p[2]) <= 255
            &&& 0 <= decimal(p[3]) <= 255
            &&& ipv4_number(s).unwrap() == ((decimal(p[0]) * 256 + decimal(p[1])) * 256 + decimal(
                p[2],
            )) * 256 + decimal(p[3])
        }),
{
    let p = split(s, '.');
    assert forall|i: int| 0 <= i < 4 implies 0 <= decimal(#[trigger] p[i]) <= 255 by {
        lemma_decimal_positive(p[i]);
    }
    assert(0 <= decimal(p[0]) <= 255 && 0 <= decimal(p[1]) <= 255 && 0 <= decimal(p[2]) <= 255 && 0
        <= decimal(p[3]) <= 255);
}

/// The first interface with an index is the one that is found by it.
pub proof fn lemma_first_index(t: Seq<IfaceInfo>, e: int)
    requires
        0 <= e < t.len(),
        forall|f: int| 0 <= f < e ==> (#[trigger] t[f]).ifindex != t[e].ifindex,
    ensures
        with_index(t, t[e].ifindex) == Some(t[e]),
    decreases t.len(),
{
    if e > 0 {
        let r = t.drop_first();
        assert(t[0].ifindex != t[e].ifindex);
        assert(r[e - 1] == t[e]);
        assert forall|f: int| 0 <= f < e - 1 implies (#[trigger] r[f]).ifindex != r[e - 1].ifindex by {
            assert(t[f + 1].ifindex != t[e].ifindex);
        }
        lemma_first_index(r, e - 1);
    }
}

} // verus!
