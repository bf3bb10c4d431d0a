//! Which game files a demo needs.
//!
//! Two sources, because neither is enough alone: the resource lists the
//! server precached (`svc_resourcelist` in the signon section), and the map
//! BSP's entity lump, where the WAD dependencies live in `worldspawn`'s `wad`
//! key and appear nowhere in the demo.
use vstd::prelude::*;
use crate::bitvec_model::{BitVec, bits_value};
use crate::bit::{BitSliceCast, clamp_bits, chunk_bytes, utf8_lossy, string_from_utf8_lossy};
use crate::text::{
    chars_of, string_of, find, find_from, occurs_at, lemma_find_from, decimal, push_int,
    trim_spec, trim_chars, lower_chars, lower_chars_exec,
};
use crate::validate::{rd_i32, read_i32};
use vstd::slice::slice_subrange;

verus! {

/// GoldSrc `resourcetype_t`.
#[derive(Clone, Copy, Debug, PartialEq, Eq, Structural, PartialOrd, Ord)]
pub enum ResourceKind {
    Sound,
    Skin,
    Model,
    Decal,
    Generic,
    EventScript,
    World,
    Unknown(u8),
}

/// The kind that a `resourcetype_t` byte names.
pub open spec fn kind_of(v: u8) -> ResourceKind {
    if v == 0 {
        ResourceKind::Sound
    } else if v == 1 {
        ResourceKind::Skin
    } else if v == 2 {
        ResourceKind::Model
    } else if v == 3 {
        ResourceKind::Decal
    } else if v == 4 {
        ResourceKind::Generic
    } else if v == 5 {
        ResourceKind::EventScript
    } else if v == 6 {
        ResourceKind::World
    } else {
        ResourceKind::Unknown(v)
    }
}

/// The name of a kind in reports.
pub open spec fn label_spec(k: ResourceKind) -> Seq<char> {
    match k {
        ResourceKind::Sound => "sound"@,
        ResourceKind::Skin => "skin"@,
        ResourceKind::Model => "model"@,
        ResourceKind::Decal => "decal"@,
        ResourceKind::Generic => "generic"@,
        ResourceKind::EventScript => "event"@,
        ResourceKind::World => "world"@,
        ResourceKind::Unknown(v) => "unknown("@ + decimal(v as int) + ")"@,
    }
}

/// Whether resources of a kind are files of their own: decals are indices
/// into `decals.wad`, and an unknown kind names nothing to fetch.
pub open spec fn is_file_kind(k: ResourceKind) -> bool {
    !(k is Decal || k is Unknown)
}

/// Where a kind stands in the order of kinds: the variants in declaration
/// order, unknown kinds after them by their byte.
pub open spec fn kind_rank(k: ResourceKind) -> nat {
    match k {
        ResourceKind::Sound => 0,
        ResourceKind::Skin => 1,
        ResourceKind::Model => 2,
        ResourceKind::Decal => 3,
        ResourceKind::Generic => 4,
        ResourceKind::EventScript => 5,
        ResourceKind::World => 6,
        ResourceKind::Unknown(v) => 7 + v as nat,
    }
}

fn rank_of(k: ResourceKind) -> (r: u16)
    ensures
        r == kind_rank(k),
{
    match k {
        ResourceKind::Sound => 0,
        ResourceKind::Skin => 1,
        ResourceKind::Model => 2,
        ResourceKind::Decal => 3,
        ResourceKind::Generic => 4,
        ResourceKind::EventScript => 5,
        ResourceKind::World => 6,
        ResourceKind::Unknown(v) => 7 + v as u16,
    }
}

impl ResourceKind {
    pub fn from_u8(v: u8) -> (r: Self)
        ensures
            r == kind_of(v),
    {
        match v {
            0 => ResourceKind::Sound,
            1 => ResourceKind::Skin,
            2 => ResourceKind::Model,
            3 => ResourceKind::Decal,
            4 => ResourceKind::Generic,
            5 => ResourceKind::EventScript,
            6 => ResourceKind::World,
            other => ResourceKind::Unknown(other),
        }
    }

    pub fn label(&self) -> (r: String)
        ensures
            r@ == label_spec(*self),
    {
        let mut s = String::new();
        match *self {
            ResourceKind::Sound => s.append("sound"),
            ResourceKind::Skin => s.append("skin"),
            ResourceKind::Model => s.append("model"),
            ResourceKind::Decal => s.append("decal"),
            ResourceKind::Generic => s.append("generic"),
            ResourceKind::EventScript => s.append("event"),
            ResourceKind::World => s.append("world"),
            ResourceKind::Unknown(v) => {
                s.append("unknown(");
                push_int(&mut s, v as i128);
                s.append(")");
            },
        }
        s
    }

    /// Decals are indices into `decals.wad`, not standalone files, so there
    /// is nothing to pull for them.
    pub fn is_file(&self) -> (r: bool)
        ensures
            r == is_file_kind(*self),
    {
        match *self {
            ResourceKind::Decal => false,
            ResourceKind::Unknown(_) => false,
            _ => true,
        }
    }
}

/// A precache name cut at its first NUL: the field is a C string in a
/// fixed-size buffer, and what follows the terminator is padding.
pub open spec fn clean_name(s: Seq<char>) -> Seq<char> {
    match find_from(s, seq!['\0'], 0) {
        Some(k) => s.take(k),
        None => s,
    }
}

pub fn clean_resource_name(raw: String) -> (r: String)
    ensures
        r@ == clean_name(raw@),
{
    let cs = chars_of(raw.as_str());
    let mut nul: Vec<char> = Vec::new();
    nul.push('\0');
    proof {
        assert(nul@ =~= seq!['\0']);
        lemma_find_from(cs@, nul@, 0);
    }
    match find(&cs, &nul, 0) {
        Some(k) => {
            let r = string_of(cs.as_slice(), 0, k);
            assert(r@ =~= cs@.take(k as int));
            r
        },
        None => {
            let r = string_of(cs.as_slice(), 0, cs.len());
            assert(r@ =~= cs@);
            r
        },
    }
}

/// A cleaned name holds no NUL: it ends where the C string does.
pub proof fn law_clean_name_has_no_nul(s: Seq<char>)
    ensures
        !clean_name(s).contains('\0'),
{
    lemma_find_from(s, seq!['\0'], 0);
    let c = clean_name(s);
    if c.contains('\0') {
        let j = choose|j: int| 0 <= j < c.len() && c[j] == '\0';
        assert(s.subrange(j, j + 1) =~= seq!['\0']);
        assert(occurs_at(s, seq!['\0'], j));
    }
}

/// Brush entities baked into the map are precached as `*N`, an index into
/// the BSP's own model lump, not a file.
pub open spec fn is_inline_model(kind: ResourceKind, name: Seq<char>) -> bool {
    kind == ResourceKind::Model && name.len() > 0 && name[0] == '*'
}

pub fn is_inline_bsp_model(kind: ResourceKind, name: &str) -> (r: bool)
    ensures
        r == is_inline_model(kind, name@),
{
    let cs = chars_of(name);
    kind == ResourceKind::Model && cs.len() > 0 && cs[0] == '*'
}

/// The number of `c` at the start of `s`.
pub open spec fn leading(s: Seq<char>, c: char) -> nat
    decreases s.len(),
{
    if s.len() > 0 && s[0] == c {
        1 + leading(s.drop_first(), c)
    } else {
        0
    }
}

/// `s` with every backslash turned into a slash.
pub open spec fn forward_slashes(s: Seq<char>) -> Seq<char> {
    s.map_values(|c: char| if c == '\\' { '/' } else { c })
}

pub open spec fn sound_prefix() -> Seq<char> {
    seq!['s', 'o', 'u', 'n', 'd', '/']
}

/// A precache name as a path relative to the gamedir: leading slashes go,
/// backslashes become slashes, and sounds, which GoldSrc precaches relative
/// to `sound/`, get that prefix unless they already have it.
pub open spec fn resolve_path_spec(kind: ResourceKind, name: Seq<char>) -> Seq<char> {
    let n = forward_slashes(name.skip(leading(name, '/') as int));
    if kind == ResourceKind::Sound && !(n.len() >= 6 && n.take(6) == sound_prefix()) {
        sound_prefix() + n
    } else {
        n
    }
}

proof fn lemma_leading(s: Seq<char>, c: char, i: int)
    requires
        0 <= i <= s.len(),
        forall|k: int| 0 <= k < i ==> s[k] == c,
        i == s.len() || s[i] != c,
    ensures
        leading(s, c) == i,
    decreases i,
{
    if i > 0 {
        lemma_leading(s.drop_first(), c, i - 1);
    }
}

pub fn resolve_path(kind: ResourceKind, name: &str) -> (r: String)
    ensures
        r@ == resolve_path_spec(kind, name@),
{
    let cs = chars_of(name);
    let mut i: usize = 0;
    while i < cs.len() && cs[i] == '/'
        invariant
            i <= cs@.len(),
            forall|k: int| 0 <= k < i ==> cs@[k] == '/',
        decreases cs@.len() - i,
    {
        i = i + 1;
    }
    proof {
        lemma_leading(cs@, '/', i as int);
    }
    let ghost n = forward_slashes(cs@.skip(i as int));
    let mut out: Vec<char> = Vec::new();
    let mut j = i;
    while j < cs.len()
        invariant
            i <= j <= cs@.len(),
            n == forward_slashes(cs@.skip(i as int)),
            out@ == n.take(j - i),
        decreases cs@.len() - j,
    {
        let c = cs[j];
        if c == '\\' {
            out.push('/');
        } else {
            out.push(c);
        }
        proof {
            assert(out@ =~= n.take(j + 1 - i));
        }
        j = j + 1;
    }
    proof {
        assert(out@ =~= n);
    }
    let is_sound = kind == ResourceKind::Sound;
    let has_prefix = out.len() >= 6 && out[0] == 's' && out[1] == 'o' && out[2] == 'u' && out[3]
        == 'n' && out[4] == 'd' && out[5] == '/';
    proof {
        if out@.len() >= 6 {
            assert(has_prefix == (out@.take(6) =~= sound_prefix()));
        }
    }
    let mut s = String::new();
    if is_sound && !has_prefix {
        proof {
            reveal_strlit("sound/");
        }
        s.append("sound/");
        assert(s@ =~= sound_prefix());
    }
    let tail = string_of(out.as_slice(), 0, out.len());
    proof {
        assert(out@.subrange(0, out@.len() as int) =~= out@);
    }
    s.append(tail.as_str());
    s
}

/// A resource the demo precaches.
pub struct DemoResource {
    pub kind: ResourceKind,
    /// The name as the server sent it, up to its terminator.
    pub name: String,
    /// The path relative to the gamedir root.
    pub path: String,
    /// The size in bytes the server declared.
    pub size: u32,
}

/// A resource as contracts speak of it.
pub struct ResourceView {
    pub kind: ResourceKind,
    pub name: Seq<char>,
    pub path: Seq<char>,
    pub size: u32,
}

impl View for DemoResource {
    type V = ResourceView;

    open spec fn view(&self) -> ResourceView {
        ResourceView { kind: self.kind, name: self.name@, path: self.path@, size: self.size }
    }
}

/// One entry of a `svc_resourcelist` message, its fields as the bit reader
/// read them: the type (4 bits), the name (a NUL-terminated string) and the
/// size (24 bits).
pub struct ResourceEntry {
    pub type_: BitVec,
    pub name: BitVec,
    pub size: BitVec,
}

pub open spec fn entry_kind(e: ResourceEntry) -> ResourceKind {
    kind_of(bits_value(clamp_bits(e.type_@, 8)) as u8)
}

pub open spec fn entry_name(e: ResourceEntry) -> Seq<char> {
    clean_name(utf8_lossy(chunk_bytes(e.name@)))
}

pub open spec fn entry_view(e: ResourceEntry) -> ResourceView {
    ResourceView {
        kind: entry_kind(e),
        name: entry_name(e),
        path: resolve_path_spec(entry_kind(e), entry_name(e)),
        size: bits_value(clamp_bits(e.size@, 32)) as u32,
    }
}

/// Entries with an empty name, and the map's own brush models, name no
/// file.
pub open spec fn names_a_file(e: ResourceEntry) -> bool {
    entry_name(e).len() > 0 && !is_inline_model(entry_kind(e), entry_name(e))
}

/// Whether some resource of `s` has this kind and name.
pub open spec fn has_key(s: Seq<ResourceView>, kind: ResourceKind, name: Seq<char>) -> bool {
    exists|i: int| 0 <= i < s.len() && s[i].kind == kind && s[i].name == name
}

/// The resources of a run of entries, each (kind, name) once, where it first
/// occurs.
pub open spec fn collect_resources(es: Seq<ResourceEntry>) -> Seq<ResourceView>
    decreases es.len(),
{
    if es.len() == 0 {
        Seq::empty()
    } else {
        let prev = collect_resources(es.drop_last());
        let e = es.last();
        if names_a_file(e) && !has_key(prev, entry_kind(e), entry_name(e)) {
            prev.push(entry_view(e))
        } else {
            prev
        }
    }
}

/// Strings in `Ord` order: by code point, a prefix first. (UTF-8 keeps
/// the code point order, so this is also the order of the bytes.)
pub open spec fn chars_le(a: Seq<char>, b: Seq<char>) -> bool
    decreases a.len(),
{
    if a.len() == 0 {
        true
    } else if b.len() == 0 {
        false
    } else if a[0] != b[0] {
        a[0] < b[0]
    } else {
        chars_le(a.drop_first(), b.drop_first())
    }
}

/// The order of resources: by kind, then by path.
pub open spec fn key_le(a: ResourceView, b: ResourceView) -> bool {
    kind_rank(a.kind) < kind_rank(b.kind) || (kind_rank(a.kind) == kind_rank(b.kind) && chars_le(
        a.path,
        b.path,
    ))
}

/// `x` put into `s` after every element that does not come after it.
pub open spec fn insert_sorted(s: Seq<ResourceView>, x: ResourceView) -> Seq<ResourceView>
    decreases s.len(),
{
    if s.len() == 0 || key_le(s.last(), x) {
        s.push(x)
    } else {
        insert_sorted(s.drop_last(), x).push(s.last())
    }
}

/// A stable sort of resources by kind, then path.
pub open spec fn sort_resources(s: Seq<ResourceView>) -> Seq<ResourceView>
    decreases s.len(),
{
    if s.len() == 0 {
        s
    } else {
        insert_sorted(sort_resources(s.drop_last()), s.last())
    }
}

proof fn lemma_chars_le_skip(a: Seq<char>, b: Seq<char>, i: int)
    requires
        0 <= i <= a.len(),
        i <= b.len(),
        forall|k: int| 0 <= k < i ==> a[k] == b[k],
    ensures
        chars_le(a, b) == chars_le(a.skip(i), b.skip(i)),
    decreases i,
{
    if i > 0 {
        lemma_chars_le_skip(a.drop_first(), b.drop_first(), i - 1);
        assert(a.drop_first().skip(i - 1) =~= a.skip(i));
        assert(b.drop_first().skip(i - 1) =~= b.skip(i));
    } else {
        assert(a.skip(0) =~= a);
        assert(b.skip(0) =~= b);
    }
}

pub(crate) fn chars_le_exec(a: &Vec<char>, b: &Vec<char>) -> (r: bool)
    ensures
        r == chars_le(a@, b@),
{
    let mut i: usize = 0;
    while i < a.len() && i < b.len() && a[i] == b[i]
        invariant
            i <= a@.len(),
            i <= b@.len(),
            forall|k: int| 0 <= k < i ==> a@[k] == b@[k],
        decreases a@.len() - i,
    {
        i = i + 1;
    }
    proof {
        lemma_chars_le_skip(a@, b@, i as int);
    }
    if i == a.len() {
        true
    } else if i == b.len() {
        false
    } else {
        a[i] < b[i]
    }
}

fn key_le_exec(ra: u16, pa: &Vec<char>, rb: u16, pb: &Vec<char>) -> (r: bool)
    ensures
        r == (ra < rb || (ra == rb && chars_le(pa@, pb@))),
{
    if ra < rb {
        true
    } else if ra == rb {
        chars_le_exec(pa, pb)
    } else {
        false
    }
}

proof fn lemma_insert_at(s: Seq<ResourceView>, x: ResourceView, j: int)
    requires
        0 <= j <= s.len(),
        forall|k: int| j <= k < s.len() ==> !key_le(#[trigger] s[k], x),
        j > 0 ==> key_le(s[j - 1], x),
    ensures
        insert_sorted(s, x) == s.insert(j, x),
    decreases s.len(),
{
    if s.len() == 0 {
        assert(s.insert(j, x) =~= s.push(x));
    } else if key_le(s.last(), x) {
        assert(j == s.len());
        assert(s.insert(j, x) =~= s.push(x));
    } else {
        let t = s.drop_last();
        assert forall|k: int| j <= k < t.len() implies !key_le(#[trigger] t[k], x) by {
            assert(t[k] == s[k]);
        }
        lemma_insert_at(t, x, j);
        assert(t.insert(j, x).push(s.last()) =~= s.insert(j, x));
    }
}

/// Resources in order: no resource comes after one that it precedes.
pub open spec fn sorted_by_key(s: Seq<ResourceView>) -> bool {
    forall|i: int, j: int| 0 <= i < j < s.len() ==> key_le(#[trigger] s[i], #[trigger] s[j])
}

/// No two resources share a kind and a name.
pub open spec fn distinct_keys(s: Seq<ResourceView>) -> bool {
    forall|i: int, j: int|
        0 <= i < j < s.len() ==> !(#[trigger] s[i].kind == #[trigger] s[j].kind && s[i].name
            == s[j].name)
}

pub(crate) proof fn lemma_chars_le_total(a: Seq<char>, b: Seq<char>)
    ensures
        chars_le(a, b) || chars_le(b, a),
    decreases a.len(),
{
    if a.len() > 0 && b.len() > 0 {
        if a[0] == b[0] {
            lemma_chars_le_total(a.drop_first(), b.drop_first());
        }
    }
}

pub(crate) proof fn lemma_chars_le_antisym(a: Seq<char>, b: Seq<char>)
    requires
        chars_le(a, b),
        chars_le(b, a),
    ensures
        a == b,
    decreases a.len(),
{
    if a.len() > 0 && b.len() > 0 {
        lemma_chars_le_antisym(a.drop_first(), b.drop_first());
        assert(a =~= seq![a[0]] + a.drop_first());
        assert(b =~= seq![b[0]] + b.drop_first());
    } else {
        assert(a =~= b);
    }
}

pub(crate) proof fn lemma_chars_le_trans(a: Seq<char>, b: Seq<char>, c: Seq<char>)
    requires
        chars_le(a, b),
        chars_le(b, c),
    ensures
        chars_le(a, c),
    decreases a.len(),
{
    if a.len() > 0 && b.len() > 0 && c.len() > 0 && a[0] == b[0] && b[0] == c[0] {
        lemma_chars_le_trans(a.drop_first(), b.drop_first(), c.drop_first());
    }
}

proof fn lemma_key_le_total(a: ResourceView, b: ResourceView)
    ensures
        key_le(a, b) || key_le(b, a),
{
    lemma_chars_le_total(a.path, b.path);
}

proof fn lemma_key_le_trans(a: ResourceView, b: ResourceView, c: ResourceView)
    requires
        key_le(a, b),
        key_le(b, c),
    ensures
        key_le(a, c),
{
    if kind_rank(a.kind) == kind_rank(b.kind) && kind_rank(b.kind) == kind_rank(c.kind) {
        lemma_chars_le_trans(a.path, b.path, c.path);
    }
}

/// Where `insert_sorted` puts `x`: after the last element that does not come
/// after it.
proof fn lemma_insert_sorted_pos(s: Seq<ResourceView>, x: ResourceView) -> (k: int)
    ensures
        0 <= k <= s.len(),
        insert_sorted(s, x) == s.insert(k, x),
        forall|m: int| k <= m < s.len() ==> !key_le(#[trigger] s[m], x),
        k > 0 ==> key_le(s[k - 1], x),
    decreases s.len(),
{
    if s.len() == 0 || key_le(s.last(), x) {
        assert(s.insert(s.len() as int, x) =~= s.push(x));
        s.len() as int
    } else {
        let t = s.drop_last();
        let k = lemma_insert_sorted_pos(t, x);
        assert(t.insert(k, x).push(s.last()) =~= s.insert(k, x));
        assert forall|m: int| k <= m < s.len() implies !key_le(#[trigger] s[m], x) by {
            if m < t.len() {
                assert(t[m] == s[m]);
            }
        }
        k
    }
}

proof fn lemma_insert_sorted_keeps_order(s: Seq<ResourceView>, x: ResourceView)
    requires
        sorted_by_key(s),
    ensures
        sorted_by_key(insert_sorted(s, x)),
{
    let k = lemma_insert_sorted_pos(s, x);
    let r = s.insert(k, x);
    s.insert_ensures(k, x);
    assert forall|i: int, j: int| 0 <= i < j < r.len() implies key_le(
        #[trigger] r[i],
        #[trigger] r[j],
    ) by {
        if i < k && j == k {
            if i < k - 1 {
                assert(key_le(s[i], s[k - 1]));
                lemma_key_le_trans(s[i], s[k - 1], x);
            }
        } else if i == k && j > k {
            lemma_key_le_total(s[j - 1], x);
        } else if i < k && j > k {
            assert(key_le(s[i], s[j - 1]));
        } else if i > k {
            assert(key_le(s[i - 1], s[j - 1]));
        } else {
            assert(key_le(s[i], s[j]));
        }
    }
}

proof fn lemma_sort_resources(c: Seq<ResourceView>)
    requires
        distinct_keys(c),
    ensures
        sort_resources(c).len() == c.len(),
        sorted_by_key(sort_resources(c)),
        distinct_keys(sort_resources(c)),
        forall|kind: ResourceKind, name: Seq<char>|
            has_key(sort_resources(c), kind, name) == has_key(c, kind, name),
    decreases c.len(),
{
    if c.len() > 0 {
        let p = c.drop_last();
        let x = c.last();
        assert(distinct_keys(p));
        lemma_sort_resources(p);
        let sp = sort_resources(p);
        lemma_insert_sorted_keeps_order(sp, x);
        let k = lemma_insert_sorted_pos(sp, x);
        sp.insert_ensures(k, x);
        let r = sp.insert(k, x);
        assert(!has_key(p, x.kind, x.name)) by {
            if has_key(p, x.kind, x.name) {
                let m = choose|m: int| 0 <= m < p.len() && p[m].kind == x.kind && p[m].name == x.name;
                assert(c[m] == p[m]);
                assert(c[c.len() - 1] == x);
            }
        }
        assert forall|i: int, j: int| 0 <= i < j < r.len() implies !(#[trigger] r[i].kind
            == #[trigger] r[j].kind && r[i].name == r[j].name) by {
            if i == k {
                assert(r[j] == sp[j - 1]);
                if r[j].kind == x.kind && r[j].name == x.name {
                    assert(has_key(sp, x.kind, x.name));
                }
            } else if j == k {
                assert(r[i] == sp[i]);
                if r[i].kind == x.kind && r[i].name == x.name {
                    assert(has_key(sp, x.kind, x.name));
                }
            } else {
                let i2 = if i < k { i } else { i - 1 };
                let j2 = if j < k { j } else { j - 1 };
                assert(r[i] == sp[i2]);
                assert(r[j] == sp[j2]);
            }
        }
        assert forall|kind: ResourceKind, name: Seq<char>|
            has_key(r, kind, name) == has_key(c, kind, name) by {
            if has_key(r, kind, name) {
                let m = choose|m: int| 0 <= m < r.len() && r[m].kind == kind && r[m].name == name;
                if m == k {
                    assert(c[c.len() - 1] == x);
                } else {
                    let m2 = if m < k { m } else { m - 1 };
                    assert(r[m] == sp[m2]);
                    assert(has_key(sp, kind, name));
                    assert(has_key(p, kind, name));
                    let q = choose|q: int| 0 <= q < p.len() && p[q].kind == kind && p[q].name == name;
                    assert(c[q] == p[q]);
                }
            }
            if has_key(c, kind, name) {
                let m = choose|m: int| 0 <= m < c.len() && c[m].kind == kind && c[m].name == name;
                if m == c.len() - 1 {
                    assert(r[k] == x);
                } else {
                    assert(c[m] == p[m]);
                    assert(has_key(p, kind, name));
                    assert(has_key(sp, kind, name));
                    let q = choose|q: int| 0 <= q < sp.len() && sp[q].kind == kind && sp[q].name == name;
                    let q2 = if q < k { q } else { q + 1 };
                    assert(r[q2] == sp[q]);
                }
            }
        }
    }
}

proof fn lemma_collect_distinct(es: Seq<ResourceEntry>)
    ensures
        distinct_keys(collect_resources(es)),
    decreases es.len(),
{
    if es.len() > 0 {
        lemma_collect_distinct(es.drop_last());
        let prev = collect_resources(es.drop_last());
        let e = es.last();
        if names_a_file(e) && !has_key(prev, entry_kind(e), entry_name(e)) {
            let c = prev.push(entry_view(e));
            assert forall|i: int, j: int| 0 <= i < j < c.len() implies !(#[trigger] c[i].kind
                == #[trigger] c[j].kind && c[i].name == c[j].name) by {
                if j == prev.len() {
                    assert(c[i] == prev[i]);
                } else {
                    assert(c[i] == prev[i]);
                    assert(c[j] == prev[j]);
                }
            }
        }
    }
}

/// The resources of a demo come sorted by kind and path, and no kind and
/// name occurs twice.
pub proof fn law_resources_sorted_and_distinct(es: Seq<ResourceEntry>)
    ensures
        sorted_by_key(sort_resources(collect_resources(es))),
        distinct_keys(sort_resources(collect_resources(es))),
{
    lemma_collect_distinct(es);
    lemma_sort_resources(collect_resources(es));
}

/// Whether `(kind, name)` is among the keys seen so far.
fn seen_key(
    kinds: &Vec<ResourceKind>,
    names: &Vec<Vec<char>>,
    kind: ResourceKind,
    name: &Vec<char>,
) -> (r: bool)
    requires
        kinds@.len() == names@.len(),
    ensures
        r == exists|i: int|
            0 <= i < kinds@.len() && kinds@[i] == kind && names@[i]@ == name@,
{
    let mut i: usize = 0;
    while i < kinds.len()
        invariant
            i <= kinds@.len(),
            kinds@.len() == names@.len(),
            forall|k: int| 0 <= k < i ==> !(kinds@[k] == kind && names@[k]@ == name@),
        decreases kinds@.len() - i,
    {
        if kinds[i] == kind && chars_eq(&names[i], name) {
            return true;
        }
        i = i + 1;
    }
    false
}

/// Whether two character vectors hold the same characters.
pub fn chars_eq(a: &Vec<char>, b: &Vec<char>) -> (r: bool)
    ensures
        r == (a@ == b@),
{
    if a.len() != b.len() {
        return false;
    }
    let mut i: usize = 0;
    while i < a.len()
        invariant
            i <= a@.len(),
            a@.len() == b@.len(),
            forall|k: int| 0 <= k < i ==> a@[k] == b@[k],
        decreases a@.len() - i,
    {
        if a[i] != b[i] {
            return false;
        }
        i = i + 1;
    }
    assert(a@ =~= b@);
    true
}

/// Every resource the entries precache, each (kind, name) once, sorted by
/// kind and then path. A demo spanning a level change carries more than one
/// resource list; the entries of all of them are merged.
pub fn resources(entries: &Vec<ResourceEntry>) -> (r: Vec<DemoResource>)
    ensures
        r@.map_values(|d: DemoResource| d@) == sort_resources(collect_resources(entries@)),
        sorted_by_key(r@.map_values(|d: DemoResource| d@)),
        distinct_keys(r@.map_values(|d: DemoResource| d@)),
{
    let mut out: Vec<DemoResource> = Vec::new();
    let mut out_paths: Vec<Vec<char>> = Vec::new();
    let mut seen_kinds: Vec<ResourceKind> = Vec::new();
    let mut seen_names: Vec<Vec<char>> = Vec::new();
    let mut i: usize = 0;
    while i < entries.len()
        invariant
            i <= entries@.len(),
            seen_kinds@.len() == seen_names@.len(),
            seen_kinds@.len() == collect_resources(entries@.take(i as int)).len(),
            forall|k: int|
                0 <= k < seen_kinds@.len() ==> #[trigger] seen_kinds@[k] == collect_resources(
                    entries@.take(i as int),
                )[k].kind && seen_names@[k]@ == collect_resources(entries@.take(i as int))[k].name,
            out_paths@.len() == out@.len(),
            forall|k: int| 0 <= k < out@.len() ==> #[trigger] out_paths@[k]@ == out@[k].path@,
            out@.map_values(|d: DemoResource| d@) == sort_resources(
                collect_resources(entries@.take(i as int)),
            ),
        decreases entries@.len() - i,
    {
        let ghost prev = collect_resources(entries@.take(i as int));
        let e = &entries[i];
        proof {
            assert(entries@.take(i + 1).drop_last() =~= entries@.take(i as int));
            assert(entries@.take(i + 1).last() == entries@[i as int]);
        }
        let kind = ResourceKind::from_u8(e.type_.to_u8());
        let name = clean_resource_name(e.name.get_string());
        let name_cs = chars_of(name.as_str());
        if name_cs.len() == 0 || is_inline_bsp_model(kind, name.as_str()) {
            i = i + 1;
            continue;
        }
        if seen_key(&seen_kinds, &seen_names, kind, &name_cs) {
            proof {
                let k = choose|k: int|
                    0 <= k < seen_kinds@.len() && seen_kinds@[k] == kind && seen_names@[k]@
                        == name_cs@;
                assert(prev[k].kind == kind && prev[k].name == name@);
            }
            i = i + 1;
            continue;
        }
        proof {
            if has_key(prev, kind, name@) {
                let k = choose|k: int| 0 <= k < prev.len() && prev[k].kind == kind && prev[k].name == name@;
                assert(seen_kinds@[k] == kind && seen_names@[k]@ == name_cs@);
            }
        }
        let path = resolve_path(kind, name.as_str());
        let path_cs = chars_of(path.as_str());
        let rank = rank_of(kind);
        let size = e.size.to_u32();
        let item = DemoResource { kind, name, path, size };
        let ghost x = item@;
        let ghost sorted = out@.map_values(|d: DemoResource| d@);
        let mut j = out.len();
        while j > 0 && !key_le_exec(rank_of(out[j - 1].kind), &out_paths[j - 1], rank, &path_cs)
            invariant
                j <= out@.len(),
                out_paths@.len() == out@.len(),
                forall|k: int| 0 <= k < out@.len() ==> #[trigger] out_paths@[k]@ == out@[k].path@,
                sorted == out@.map_values(|d: DemoResource| d@),
                rank == kind_rank(x.kind),
                path_cs@ == x.path,
                forall|k: int| j <= k < sorted.len() ==> !key_le(#[trigger] sorted[k], x),
            decreases j,
        {
            j = j - 1;
        }
        proof {
            lemma_insert_at(sorted, x, j as int);
        }
        seen_kinds.push(kind);
        seen_names.push(name_cs);
        let ghost old_paths = out_paths@;
        let ghost old_out = out@;
        out.insert(j, item);
        out_paths.insert(j, path_cs);
        proof {
            let c = prev.push(x);
            assert(collect_resources(entries@.take(i + 1)) == c);
            assert(c.drop_last() =~= prev);
            assert(sort_resources(c) == insert_sorted(sort_resources(prev), x));
            assert(out@.map_values(|d: DemoResource| d@) =~= sorted.insert(j as int, x));
            assert forall|k: int| 0 <= k < out@.len() implies #[trigger] out_paths@[k]@
                == out@[k].path@ by {
                if k < j {
                } else if k == j {
                } else {
                    assert(out_paths@[k] == old_paths[k - 1]);
                    assert(out@[k] == old_out[k - 1]);
                }
            }
        }
        i = i + 1;
    }
    proof {
        assert(entries@.take(entries@.len() as int) =~= entries@);
        law_resources_sorted_and_distinct(entries@);
    }
    out
}

// ---------------------------------------------------------------------------
// Entity text
// ---------------------------------------------------------------------------

/// Where the first entity block of `s` stands: from its `{` up to, not
/// including, the first `}` after it.
pub open spec fn first_entity_range(s: Seq<char>) -> Option<(int, int)> {
    match find_from(s, seq!['{'], 0) {
        None => None,
        Some(a) => match find_from(s, seq!['}'], a) {
            None => None,
            Some(b) => Some((a, b)),
        },
    }
}

/// `"key"`: a key as it stands, quoted, in an entity block.
pub open spec fn quoted(key: Seq<char>) -> Seq<char> {
    seq!['"'] + key + seq!['"']
}

/// Where the value after the first `needle` at or after `pos` stands: the
/// text between the next two quotes. An occurrence with no quoted text after
/// it is passed over.
pub open spec fn value_from(b: Seq<char>, needle: Seq<char>, pos: int) -> Option<(int, int)>
    decreases b.len() + 1 - pos,
{
    if pos < 0 || needle.len() == 0 || pos + needle.len() > b.len() {
        None
    } else if occurs_at(b, needle, pos) {
        let a = pos + needle.len();
        match find_from(b, seq!['"'], a) {
            Some(o) => match find_from(b, seq!['"'], o + 1) {
                Some(c) => Some((o + 1, c)),
                None => value_from(b, needle, a),
            },
            None => value_from(b, needle, a),
        }
    } else {
        value_from(b, needle, pos + 1)
    }
}

/// Where the value of `"key" "value"` stands in an entity block.
pub open spec fn entity_value_range(block: Seq<char>, key: Seq<char>) -> Option<(int, int)> {
    value_from(block, quoted(key), 0)
}

fn first_entity_of(cs: &Vec<char>) -> (r: Option<(usize, usize)>)
    ensures
        match r {
            Some((a, b)) => first_entity_range(cs@) == Some((a as int, b as int)) && a <= b
                <= cs@.len(),
            None => first_entity_range(cs@) is None,
        },
{
    let mut open: Vec<char> = Vec::new();
    open.push('{');
    let mut close: Vec<char> = Vec::new();
    close.push('}');
    proof {
        assert(open@ =~= seq!['{']);
        assert(close@ =~= seq!['}']);
        lemma_find_from(cs@, open@, 0);
    }
    match find(cs, &open, 0) {
        None => None,
        Some(a) => {
            proof {
                lemma_find_from(cs@, close@, a as int);
            }
            match find(cs, &close, a) {
                None => None,
                Some(b) => Some((a, b)),
            }
        },
    }
}

/// The first entity block of an entity lump, from its `{` up to the `}`
/// that closes it.
pub fn first_entity(ents: &str) -> (r: Option<String>)
    ensures
        match first_entity_range(ents@) {
            Some((a, b)) => r is Some && r->0@ == ents@.subrange(a, b),
            None => r is None,
        },
{
    let cs = chars_of(ents);
    match first_entity_of(&cs) {
        None => None,
        Some((a, b)) => Some(string_of(cs.as_slice(), a, b)),
    }
}

proof fn lemma_value_from_skip(b: Seq<char>, needle: Seq<char>, pos: int)
    requires
        0 <= pos,
        needle.len() > 0,
    ensures
        match find_from(b, needle, pos) {
            Some(k) => value_from(b, needle, pos) == value_from(b, needle, k),
            None => value_from(b, needle, pos) is None,
        },
    decreases b.len() + 1 - pos,
{
    if pos + needle.len() > b.len() {
    } else if occurs_at(b, needle, pos) {
    } else {
        lemma_value_from_skip(b, needle, pos + 1);
    }
}

fn value_of(b: &Vec<char>, key: &Vec<char>) -> (r: Option<(usize, usize)>)
    ensures
        match r {
            Some((x, y)) => entity_value_range(b@, key@) == Some((x as int, y as int)) && x <= y
                <= b@.len(),
            None => entity_value_range(b@, key@) is None,
        },
{
    let mut needle: Vec<char> = Vec::new();
    needle.push('"');
    let mut k: usize = 0;
    while k < key.len()
        invariant
            k <= key@.len(),
            needle@ == seq!['"'] + key@.take(k as int),
        decreases key@.len() - k,
    {
        needle.push(key[k]);
        proof {
            assert(seq!['"'] + key@.take(k + 1) =~= (seq!['"'] + key@.take(k as int)).push(
                key@[k as int],
            ));
        }
        k = k + 1;
    }
    needle.push('"');
    proof {
        assert(key@.take(key@.len() as int) =~= key@);
        assert(needle@ =~= quoted(key@));
    }
    let mut quote: Vec<char> = Vec::new();
    quote.push('"');
    proof {
        assert(quote@ =~= seq!['"']);
    }
    let mut pos: usize = 0;
    loop
        invariant
            needle@ == quoted(key@),
            quote@ == seq!['"'],
            value_from(b@, needle@, pos as int) == entity_value_range(b@, key@),
        decreases b@.len() + 1 - pos,
    {
        proof {
            lemma_value_from_skip(b@, needle@, pos as int);
            lemma_find_from(b@, needle@, pos as int);
        }
        match find(b, &needle, pos) {
            None => {
                return None;
            },
            Some(at) => {
                assert(at + needle.len() <= b.len());
                let a = at + needle.len();
                proof {
                    lemma_find_from(b@, quote@, a as int);
                }
                match find(b, &quote, a) {
                    Some(o) => {
                        assert(o + 1 <= b.len());
                        proof {
                            lemma_find_from(b@, quote@, o + 1);
                        }
                        match find(b, &quote, o + 1) {
                            Some(c) => {
                                return Some((o + 1, c));
                            },
                            None => {},
                        }
                    },
                    None => {},
                }
                pos = a;
            },
        }
    }
}

/// The value of `"key" "value"` in an entity block: the quoted text after
/// the first quoted `key` that has one.
pub fn entity_value(block: &str, key: &str) -> (r: Option<String>)
    ensures
        match entity_value_range(block@, key@) {
            Some((a, b)) => r is Some && r->0@ == block@.subrange(a, b),
            None => r is None,
        },
{
    let b = chars_of(block);
    let k = chars_of(key);
    match value_of(&b, &k) {
        None => None,
        Some((x, y)) => Some(string_of(b.as_slice(), x, y)),
    }
}

// ---------------------------------------------------------------------------
// BSP
// ---------------------------------------------------------------------------

/// What a BSP's entity lump says the map needs.
pub struct BspInfo {
    pub version: i32,
    /// WAD basenames from `worldspawn`'s `wad` key, in declared order.
    pub wads: Vec<String>,
    pub skyname: Option<String>,
}

/// Why a BSP could not be read.
#[derive(Clone, Copy, Debug, PartialEq, Eq, Structural)]
pub enum BspError {
    /// Shorter than the version and the first lump's offset and length.
    TooShort,
    /// The entity lump's offset is zero or the lump runs past the end; the
    /// offset and length as read.
    EntityLumpOutOfRange(usize, usize),
}

pub open spec fn bsp_error_message(e: BspError) -> Seq<char> {
    match e {
        BspError::TooShort => "BSP too short"@,
        BspError::EntityLumpOutOfRange(o, l) => "BSP entity lump out of range (offset "@ + decimal(
            o as int,
        ) + ", len "@ + decimal(l as int) + ")"@,
    }
}

impl BspError {
    /// The text of the error.
    pub fn message(&self) -> (r: String)
        ensures
            r@ == bsp_error_message(*self),
    {
        let mut s = String::new();
        match *self {
            BspError::TooShort => s.append("BSP too short"),
            BspError::EntityLumpOutOfRange(o, l) => {
                s.append("BSP entity lump out of range (offset ");
                push_int(&mut s, o as i128);
                s.append(", len ");
                push_int(&mut s, l as i128);
                s.append(")");
            },
        }
        s
    }
}

/// The entity lump's offset, as the BSP's `i32` becomes a `usize`.
pub open spec fn lump_offset(bsp: Seq<u8>) -> int {
    rd_i32(bsp, 4) as usize as int
}

/// The entity lump's length, as the BSP's `i32` becomes a `usize`.
pub open spec fn lump_length(bsp: Seq<u8>) -> int {
    rd_i32(bsp, 8) as usize as int
}

/// Whether the entity lump's end does not fit a `usize` (a negative
/// offset or length becomes a huge one).
pub open spec fn lump_end_overflows(bsp: Seq<u8>) -> bool {
    bsp.len() >= 12 && lump_offset(bsp) + lump_length(bsp) > usize::MAX
}

pub open spec fn is_path_sep(c: char) -> bool {
    c == '/' || c == '\\'
}

/// What follows the last `/` or `\` of `p`; all of `p` when it has none.
pub open spec fn last_segment(p: Seq<char>) -> Seq<char>
    decreases p.len(),
{
    if p.len() == 0 {
        p
    } else if is_path_sep(p.last()) {
        Seq::empty()
    } else {
        last_segment(p.drop_last()).push(p.last())
    }
}

/// `s` split at every `sep`, as `str::split` does it: `k` separators give
/// `k + 1` parts, empty ones included.
pub open spec fn split_chars(s: Seq<char>, sep: char) -> Seq<Seq<char>>
    decreases s.len(),
{
    if s.len() == 0 {
        seq![Seq::empty()]
    } else {
        let p = split_chars(s.drop_last(), sep);
        if s.last() == sep {
            p.push(Seq::empty())
        } else {
            p.update(p.len() - 1, p.last().push(s.last()))
        }
    }
}

pub open spec fn wad_suffix() -> Seq<char> {
    seq!['.', 'w', 'a', 'd']
}

/// A WAD basename: not empty, and `.wad` at the end whatever the case.
pub open spec fn is_wad_name(b: Seq<char>) -> bool {
    let l = lower_chars(b);
    b.len() > 0 && l.len() >= 4 && l.skip(l.len() - 4) == wad_suffix()
}

/// The basename that a part of the `wad` value names.
pub open spec fn wad_base(p: Seq<char>) -> Seq<char> {
    trim_spec(last_segment(p))
}

/// One more part of the `wad` value: its basename is added when it names a
/// WAD that is not there yet, whatever the case.
pub open spec fn wad_step(prev: Seq<Seq<char>>, p: Seq<char>) -> Seq<Seq<char>> {
    let b = wad_base(p);
    if is_wad_name(b) && !prev.map_values(|w: Seq<char>| lower_chars(w)).contains(lower_chars(b)) {
        prev.push(b)
    } else {
        prev
    }
}

/// The WADs of the parts of a `wad` value, in declared order, each once.
pub open spec fn wad_list(parts: Seq<Seq<char>>) -> Seq<Seq<char>>
    decreases parts.len(),
{
    if parts.len() == 0 {
        Seq::empty()
    } else {
        wad_step(wad_list(parts.drop_last()), parts.last())
    }
}

/// The WADs of a `wad` value each end in `.wad`, and no two are the same
/// but for case.
pub proof fn law_wads_named_once(parts: Seq<Seq<char>>)
    ensures
        forall|i: int| 0 <= i < wad_list(parts).len() ==> is_wad_name(#[trigger] wad_list(parts)[i]),
        forall|i: int, j: int|
            0 <= i < j < wad_list(parts).len() ==> lower_chars(#[trigger] wad_list(parts)[i])
                != lower_chars(#[trigger] wad_list(parts)[j]),
    decreases parts.len(),
{
    if parts.len() > 0 {
        law_wads_named_once(parts.drop_last());
        let prev = wad_list(parts.drop_last());
        let b = wad_base(parts.last());
        let lp = prev.map_values(|w: Seq<char>| lower_chars(w));
        if is_wad_name(b) && !lp.contains(lower_chars(b)) {
            let r = prev.push(b);
            assert(wad_list(parts) == r);
            assert forall|i: int| 0 <= i < r.len() implies is_wad_name(#[trigger] r[i]) by {
                if i < prev.len() {
                    assert(r[i] == prev[i]);
                }
            }
            assert forall|i: int, j: int| 0 <= i < j < r.len() implies lower_chars(#[trigger] r[i])
                != lower_chars(#[trigger] r[j]) by {
                assert(r[i] == prev[i]);
                if j == prev.len() {
                    assert(lp[i] == lower_chars(prev[i]));
                } else {
                    assert(r[j] == prev[j]);
                }
            }
        }
    }
}

/// The entity text of a BSP whose lump lies within it.
pub open spec fn bsp_entities(bsp: Seq<u8>) -> Seq<char> {
    utf8_lossy(bsp.subrange(lump_offset(bsp), lump_offset(bsp) + lump_length(bsp)))
}

/// The `worldspawn` block: the first entity, or all the text when there is
/// no complete one.
pub open spec fn worldspawn(ents: Seq<char>) -> Seq<char> {
    match first_entity_range(ents) {
        Some((a, b)) => ents.subrange(a, b),
        None => ents,
    }
}

pub open spec fn wad_key() -> Seq<char> {
    seq!['w', 'a', 'd']
}

pub open spec fn skyname_key() -> Seq<char> {
    seq!['s', 'k', 'y', 'n', 'a', 'm', 'e']
}

/// The WADs that a `worldspawn` block names.
pub open spec fn bsp_wads(ws: Seq<char>) -> Seq<Seq<char>> {
    match entity_value_range(ws, wad_key()) {
        Some((a, b)) => wad_list(split_chars(ws.subrange(a, b), ';')),
        None => Seq::empty(),
    }
}

/// The sky that a `worldspawn` block names, trimmed, when not empty.
pub open spec fn bsp_sky(ws: Seq<char>) -> Option<Seq<char>> {
    match entity_value_range(ws, skyname_key()) {
        Some((a, b)) => if trim_spec(ws.subrange(a, b)).len() > 0 {
            Some(trim_spec(ws.subrange(a, b)))
        } else {
            None
        },
        None => None,
    }
}

/// Whether `info` is what the entity lump of `bsp` says.
pub open spec fn reads_bsp(info: BspInfo, bsp: Seq<u8>) -> bool {
    let ws = worldspawn(bsp_entities(bsp));
    &&& info.version == rd_i32(bsp, 0)
    &&& info.wads@.map_values(|w: String| w@) == bsp_wads(ws)
    &&& match info.skyname {
        Some(sky) => bsp_sky(ws) == Some(sky@),
        None => bsp_sky(ws) is None,
    }
}

proof fn lemma_last_segment(p: Seq<char>, j: int)
    requires
        0 <= j <= p.len(),
        forall|k: int| j <= k < p.len() ==> !is_path_sep(#[trigger] p[k]),
        j == 0 || is_path_sep(p[j - 1]),
    ensures
        last_segment(p) == p.skip(j),
    decreases p.len() - j,
{
    if j == p.len() {
        assert(p.skip(j) =~= Seq::<char>::empty());
    } else {
        let t = p.drop_last();
        assert forall|k: int| j <= k < t.len() implies !is_path_sep(#[trigger] t[k]) by {
            assert(t[k] == p[k]);
        }
        lemma_last_segment(t, j);
        assert(t.skip(j).push(p.last()) =~= p.skip(j));
    }
}

/// The basename of one part of a `wad` value.
fn wad_base_exec(p: &Vec<char>) -> (r: Vec<char>)
    ensures
        r@ == wad_base(p@),
{
    let mut j = p.len();
    while j > 0 && p[j - 1] != '/' && p[j - 1] != '\\'
        invariant
            j <= p@.len(),
            forall|k: int| j <= k < p@.len() ==> !is_path_sep(#[trigger] p@[k]),
        decreases j,
    {
        j = j - 1;
    }
    proof {
        lemma_last_segment(p@, j as int);
    }
    let mut seg: Vec<char> = Vec::new();
    let mut i = j;
    while i < p.len()
        invariant
            j <= i <= p@.len(),
            seg@ == p@.subrange(j as int, i as int),
        decreases p@.len() - i,
    {
        seg.push(p[i]);
        proof {
            assert(p@.subrange(j as int, i + 1) =~= p@.subrange(j as int, i as int).push(
                p@[i as int],
            ));
        }
        i = i + 1;
    }
    proof {
        assert(seg@ =~= p@.skip(j as int));
    }
    trim_chars(&seg)
}

/// Adds the basename of one part of a `wad` value when it names a WAD not
/// there yet; `seen` holds the lowercase forms of what `out` holds.
fn add_wad(p: &Vec<char>, out: &mut Vec<String>, seen: &mut Vec<Vec<char>>)
    requires
        old(seen)@.len() == old(out)@.len(),
        forall|k: int| 0 <= k < old(out)@.len() ==> #[trigger] old(seen)@[k]@ == lower_chars(
            old(out)@[k]@,
        ),
    ensures
        final(seen)@.len() == final(out)@.len(),
        forall|k: int| 0 <= k < final(out)@.len() ==> #[trigger] final(seen)@[k]@ == lower_chars(
            final(out)@[k]@,
        ),
        final(out)@.map_values(|w: String| w@) == wad_step(
            old(out)@.map_values(|w: String| w@),
            p@,
        ),
{
    let ghost prev = out@.map_values(|w: String| w@);
    let b = wad_base_exec(p);
    let l = lower_chars_exec(&b);
    let n = l.len();
    let is_wad = b.len() > 0 && n >= 4 && l[n - 4] == '.' && l[n - 3] == 'w' && l[n - 2] == 'a'
        && l[n - 1] == 'd';
    proof {
        if b@.len() > 0 && n >= 4 {
            assert(is_wad == (l@.skip(n - 4) =~= wad_suffix()));
        }
    }
    if !is_wad {
        return;
    }
    let mut i: usize = 0;
    while i < seen.len()
        invariant
            i <= seen@.len(),
            seen@.len() == out@.len(),
            prev == out@.map_values(|w: String| w@),
            forall|k: int| 0 <= k < out@.len() ==> #[trigger] seen@[k]@ == lower_chars(out@[k]@),
            forall|k: int| 0 <= k < i ==> seen@[k]@ != l@,
            b@ == wad_base(p@),
            l@ == lower_chars(b@),
            is_wad_name(b@),
        decreases seen@.len() - i,
    {
        if crate::resources::chars_eq(&seen[i], &l) {
            proof {
                let lp = prev.map_values(|w: Seq<char>| lower_chars(w));
                assert(lp[i as int] == l@);
                assert(lp.contains(l@));
            }
            return;
        }
        i = i + 1;
    }
    proof {
        if prev.map_values(|w: Seq<char>| lower_chars(w)).contains(l@) {
            let lp = prev.map_values(|w: Seq<char>| lower_chars(w));
            let k = choose|k: int| 0 <= k < lp.len() && #[trigger] lp[k] == l@;
            assert(seen@[k]@ == l@);
        }
    }
    let name = string_of(b.as_slice(), 0, b.len());
    proof {
        assert(b@.subrange(0, b@.len() as int) =~= b@);
    }
    out.push(name);
    seen.push(l);
    proof {
        assert(out@.map_values(|w: String| w@) =~= prev.push(b@));
    }
}

/// The WADs that a `wad` value names, in declared order, each once.
fn wads_of(v: &Vec<char>) -> (r: Vec<String>)
    ensures
        r@.map_values(|w: String| w@) == wad_list(split_chars(v@, ';')),
{
    let mut out: Vec<String> = Vec::new();
    let mut seen: Vec<Vec<char>> = Vec::new();
    let mut cur: Vec<char> = Vec::new();
    let ghost mut done: Seq<Seq<char>> = Seq::empty();
    let mut i: usize = 0;
    proof {
        assert(v@.take(0) =~= Seq::<char>::empty());
        assert(done.push(cur@) =~= seq![Seq::<char>::empty()]);
    }
    while i < v.len()
        invariant
            i <= v@.len(),
            split_chars(v@.take(i as int), ';') == done.push(cur@),
            seen@.len() == out@.len(),
            forall|k: int| 0 <= k < out@.len() ==> #[trigger] seen@[k]@ == lower_chars(out@[k]@),
            out@.map_values(|w: String| w@) == wad_list(done),
        decreases v@.len() - i,
    {
        let c = v[i];
        proof {
            assert(v@.take(i + 1).drop_last() =~= v@.take(i as int));
        }
        if c == ';' {
            add_wad(&cur, &mut out, &mut seen);
            proof {
                assert(done.push(cur@).drop_last() =~= done);
                done = done.push(cur@);
            }
            cur = Vec::new();
            proof {
                assert(split_chars(v@.take(i + 1), ';') == split_chars(v@.take(i as int), ';').push(
                    Seq::empty(),
                ));
                assert(done.push(cur@) =~= split_chars(v@.take(i + 1), ';'));
            }
        } else {
            let ghost old_cur = cur@;
            cur.push(c);
            proof {
                let p = split_chars(v@.take(i as int), ';');
                assert(p == done.push(old_cur));
                assert(p.update(p.len() - 1, p.last().push(c)) =~= done.push(cur@));
            }
        }
        i = i + 1;
    }
    add_wad(&cur, &mut out, &mut seen);
    proof {
        assert(v@.take(v@.len() as int) =~= v@);
        assert(done.push(cur@).drop_last() =~= done);
    }
    out
}

/// Whether the entity lump's end fits a `usize` (what `parse_bsp` asks of
/// its input).
pub fn bsp_lump_fits(bsp: &[u8]) -> (r: bool)
    ensures
        r == !lump_end_overflows(bsp@),
{
    if bsp.len() < 12 {
        return true;
    }
    let off = read_i32(bsp, 4) as usize;
    let len = read_i32(bsp, 8) as usize;
    off <= usize::MAX - len
}

/// Reads the WAD and sky dependencies out of a BSP's entity lump. The
/// layout (GoldSrc BSP v30): an `i32` version, then fifteen `{ i32 offset,
/// i32 length }` lumps, the first of them the entity text.
pub fn parse_bsp(bsp: &[u8]) -> (r: Result<BspInfo, BspError>)
    requires
        !lump_end_overflows(bsp@),
    ensures
        bsp@.len() < 12 ==> r == Err::<BspInfo, BspError>(BspError::TooShort),
        bsp@.len() >= 12 && (lump_offset(bsp@) == 0 || lump_offset(bsp@) + lump_length(bsp@)
            > bsp@.len()) ==> r == Err::<BspInfo, BspError>(
            BspError::EntityLumpOutOfRange(lump_offset(bsp@) as usize, lump_length(bsp@) as usize),
        ),
        bsp@.len() >= 12 && lump_offset(bsp@) != 0 && lump_offset(bsp@) + lump_length(bsp@)
            <= bsp@.len() ==> (r matches Ok(info) && reads_bsp(info, bsp@)),
{
    if bsp.len() < 12 {
        return Err(BspError::TooShort);
    }
    let version = read_i32(bsp, 0);
    let ent_off = read_i32(bsp, 4) as usize;
    let ent_len = read_i32(bsp, 8) as usize;
    if ent_off == 0 || ent_off + ent_len > bsp.len() {
        return Err(BspError::EntityLumpOutOfRange(ent_off, ent_len));
    }
    let lump = slice_subrange(bsp, ent_off, ent_off + ent_len);
    let ents = string_from_utf8_lossy(lump);
    let cs = chars_of(ents.as_str());
    let ws: Vec<char> = match first_entity_of(&cs) {
        Some((a, b)) => {
            let mut w: Vec<char> = Vec::new();
            let mut i = a;
            while i < b
                invariant
                    a <= i <= b <= cs@.len(),
                    w@ == cs@.subrange(a as int, i as int),
                decreases b - i,
            {
                w.push(cs[i]);
                proof {
                    assert(cs@.subrange(a as int, i + 1) =~= cs@.subrange(a as int, i as int).push(
                        cs@[i as int],
                    ));
                }
                i = i + 1;
            }
            w
        },
        None => cs,
    };
    let mut wad_key_cs: Vec<char> = Vec::new();
    wad_key_cs.push('w');
    wad_key_cs.push('a');
    wad_key_cs.push('d');
    proof {
        assert(wad_key_cs@ =~= wad_key());
    }
    let wads = match value_of(&ws, &wad_key_cs) {
        Some((a, b)) => {
            let v = sub_chars(&ws, a, b);
            wads_of(&v)
        },
        None => {
            let w: Vec<String> = Vec::new();
            assert(w@.map_values(|x: String| x@) =~= Seq::<Seq<char>>::empty());
            w
        },
    };
    let mut sky_key_cs: Vec<char> = Vec::new();
    sky_key_cs.push('s');
    sky_key_cs.push('k');
    sky_key_cs.push('y');
    sky_key_cs.push('n');
    sky_key_cs.push('a');
    sky_key_cs.push('m');
    sky_key_cs.push('e');
    proof {
        assert(sky_key_cs@ =~= skyname_key());
    }
    let skyname = match value_of(&ws, &sky_key_cs) {
        Some((a, b)) => {
            let v = sub_chars(&ws, a, b);
            let t = trim_chars(&v);
            if t.len() > 0 {
                let s = string_of(t.as_slice(), 0, t.len());
                proof {
                    assert(t@.subrange(0, t@.len() as int) =~= t@);
                }
                Some(s)
            } else {
                None
            }
        },
        None => None,
    };
    Ok(BspInfo { version, wads, skyname })
}

/// The characters `cs[from..to]`.
fn sub_chars(cs: &Vec<char>, from: usize, to: usize) -> (r: Vec<char>)
    requires
        from <= to <= cs@.len(),
    ensures
        r@ == cs@.subrange(from as int, to as int),
{
    let mut w: Vec<char> = Vec::new();
    let mut i = from;
    while i < to
        invariant
            from <= i <= to <= cs@.len(),
            w@ == cs@.subrange(from as int, i as int),
        decreases to - i,
    {
        w.push(cs[i]);
        proof {
            assert(cs@.subrange(from as int, i + 1) =~= cs@.subrange(from as int, i as int).push(
                cs@[i as int],
            ));
        }
        i = i + 1;
    }
    w
}

/// The six faces GoldSrc expects for a sky.
pub open spec fn sky_face(f: int) -> Seq<char> {
    if f == 0 {
        seq!['b', 'k']
    } else if f == 1 {
        seq!['d', 'n']
    } else if f == 2 {
        seq!['f', 't']
    } else if f == 3 {
        seq!['l', 'f']
    } else if f == 4 {
        seq!['r', 't']
    } else {
        seq!['u', 'p']
    }
}

/// The two image extensions worth trying for a sky face.
pub open spec fn sky_ext(e: int) -> Seq<char> {
    if e == 0 {
        seq!['t', 'g', 'a']
    } else {
        seq!['b', 'm', 'p']
    }
}

/// `gfx/env/{skyname}{face}.{ext}`.
pub open spec fn sky_path_spec(skyname: Seq<char>, f: int, e: int) -> Seq<char> {
    seq!['g', 'f', 'x', '/', 'e', 'n', 'v', '/'] + skyname + sky_face(f) + seq!['.'] + sky_ext(e)
}

fn sky_path(skyname: &str, f: usize, e: usize) -> (r: String)
    requires
        f < 6,
        e < 2,
    ensures
        r@ == sky_path_spec(skyname@, f as int, e as int),
{
    proof {
        reveal_strlit("gfx/env/");
        reveal_strlit("bk");
        reveal_strlit("dn");
        reveal_strlit("ft");
        reveal_strlit("lf");
        reveal_strlit("rt");
        reveal_strlit("up");
        reveal_strlit(".");
        reveal_strlit("tga");
        reveal_strlit("bmp");
    }
    let mut s = String::new();
    s.append("gfx/env/");
    s.append(skyname);
    if f == 0 {
        s.append("bk");
    } else if f == 1 {
        s.append("dn");
    } else if f == 2 {
        s.append("ft");
    } else if f == 3 {
        s.append("lf");
    } else if f == 4 {
        s.append("rt");
    } else {
        s.append("up");
    }
    s.append(".");
    if e == 0 {
        s.append("tga");
    } else {
        s.append("bmp");
    }
    assert(s@ =~= sky_path_spec(skyname@, f as int, e as int));
    s
}


/// The sky paths of a sky named `s`: `gfx/env/{s}{face}.{ext}` for the
/// faces bk, dn, ft, lf, rt, up, each first as tga, then as bmp.
pub proof fn law_sky_paths(s: Seq<char>)
    ensures
        sky_path_spec(s, 0, 0) == "gfx/env/"@ + s + "bk.tga"@,
        sky_path_spec(s, 0, 1) == "gfx/env/"@ + s + "bk.bmp"@,
        sky_path_spec(s, 1, 0) == "gfx/env/"@ + s + "dn.tga"@,
        sky_path_spec(s, 1, 1) == "gfx/env/"@ + s + "dn.bmp"@,
        sky_path_spec(s, 2, 0) == "gfx/env/"@ + s + "ft.tga"@,
        sky_path_spec(s, 2, 1) == "gfx/env/"@ + s + "ft.bmp"@,
        sky_path_spec(s, 3, 0) == "gfx/env/"@ + s + "lf.tga"@,
        sky_path_spec(s, 3, 1) == "gfx/env/"@ + s + "lf.bmp"@,
        sky_path_spec(s, 4, 0) == "gfx/env/"@ + s + "rt.tga"@,
        sky_path_spec(s, 4, 1) == "gfx/env/"@ + s + "rt.bmp"@,
        sky_path_spec(s, 5, 0) == "gfx/env/"@ + s + "up.tga"@,
        sky_path_spec(s, 5, 1) == "gfx/env/"@ + s + "up.bmp"@,
{
    reveal_strlit("gfx/env/");
    reveal_strlit("bk.tga");
    reveal_strlit("bk.bmp");
    reveal_strlit("dn.tga");
    reveal_strlit("dn.bmp");
    reveal_strlit("ft.tga");
    reveal_strlit("ft.bmp");
    reveal_strlit("lf.tga");
    reveal_strlit("lf.bmp");
    reveal_strlit("rt.tga");
    reveal_strlit("rt.bmp");
    reveal_strlit("up.tga");
    reveal_strlit("up.bmp");
    assert(sky_path_spec(s, 0, 0) =~= "gfx/env/"@ + s + "bk.tga"@);
    assert(sky_path_spec(s, 0, 1) =~= "gfx/env/"@ + s + "bk.bmp"@);
    assert(sky_path_spec(s, 1, 0) =~= "gfx/env/"@ + s + "dn.tga"@);
    assert(sky_path_spec(s, 1, 1) =~= "gfx/env/"@ + s + "dn.bmp"@);
    assert(sky_path_spec(s, 2, 0) =~= "gfx/env/"@ + s + "ft.tga"@);
    assert(sky_path_spec(s, 2, 1) =~= "gfx/env/"@ + s + "ft.bmp"@);
    assert(sky_path_spec(s, 3, 0) =~= "gfx/env/"@ + s + "lf.tga"@);
    assert(sky_path_spec(s, 3, 1) =~= "gfx/env/"@ + s + "lf.bmp"@);
    assert(sky_path_spec(s, 4, 0) =~= "gfx/env/"@ + s + "rt.tga"@);
    assert(sky_path_spec(s, 4, 1) =~= "gfx/env/"@ + s + "rt.bmp"@);
    assert(sky_path_spec(s, 5, 0) =~= "gfx/env/"@ + s + "up.tga"@);
    assert(sky_path_spec(s, 5, 1) =~= "gfx/env/"@ + s + "up.bmp"@);
}

/// The six faces GoldSrc expects for a sky, each with the two extensions
/// worth trying: face by face, `tga` before `bmp`.
pub fn sky_paths(skyname: &str) -> (r: Vec<String>)
    ensures
        r@.len() == 12,
        forall|i: int| 0 <= i < 12 ==> #[trigger] r@[i]@ == sky_path_spec(skyname@, i / 2, i % 2),
        r@[0]@ == "gfx/env/"@ + skyname@ + "bk.tga"@,
        r@[1]@ == "gfx/env/"@ + skyname@ + "bk.bmp"@,
        r@[2]@ == "gfx/env/"@ + skyname@ + "dn.tga"@,
        r@[3]@ == "gfx/env/"@ + skyname@ + "dn.bmp"@,
        r@[4]@ == "gfx/env/"@ + skyname@ + "ft.tga"@,
        r@[5]@ == "gfx/env/"@ + skyname@ + "ft.bmp"@,
        r@[6]@ == "gfx/env/"@ + skyname@ + "lf.tga"@,
        r@[7]@ == "gfx/env/"@ + skyname@ + "lf.bmp"@,
        r@[8]@ == "gfx/env/"@ + skyname@ + "rt.tga"@,
        r@[9]@ == "gfx/env/"@ + skyname@ + "rt.bmp"@,
        r@[10]@ == "gfx/env/"@ + skyname@ + "up.tga"@,
        r@[11]@ == "gfx/env/"@ + skyname@ + "up.bmp"@,
{
    let mut v: Vec<String> = Vec::new();
    let mut f: usize = 0;
    while f < 6
        invariant
            f <= 6,
            v@.len() == 2 * f,
            forall|i: int| 0 <= i < v@.len() ==> #[trigger] v@[i]@ == sky_path_spec(
                skyname@,
                i / 2,
                i % 2,
            ),
        decreases 6 - f,
    {
        v.push(sky_path(skyname, f, 0));
        v.push(sky_path(skyname, f, 1));
        proof {
            assert((2 * f) / 2 == f && (2 * f) % 2 == 0) by (nonlinear_arith);
            assert((2 * f + 1) / 2 == f && (2 * f + 1) % 2 == 1) by (nonlinear_arith);
        }
        f = f + 1;
    }
    proof {
        law_sky_paths(skyname@);
        assert(v@[0]@ == sky_path_spec(skyname@, 0, 0));
        assert(v@[1]@ == sky_path_spec(skyname@, 0, 1));
        assert(v@[2]@ == sky_path_spec(skyname@, 1, 0));
        assert(v@[3]@ == sky_path_spec(skyname@, 1, 1));
        assert(v@[4]@ == sky_path_spec(skyname@, 2, 0));
        assert(v@[5]@ == sky_path_spec(skyname@, 2, 1));
        assert(v@[6]@ == sky_path_spec(skyname@, 3, 0));
        assert(v@[7]@ == sky_path_spec(skyname@, 3, 1));
        assert(v@[8]@ == sky_path_spec(skyname@, 4, 0));
        assert(v@[9]@ == sky_path_spec(skyname@, 4, 1));
        assert(v@[10]@ == sky_path_spec(skyname@, 5, 0));
        assert(v@[11]@ == sky_path_spec(skyname@, 5, 1));
    }
    v
}

} // verus!
