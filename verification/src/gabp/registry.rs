//! The tool registry (descriptors by name) and the queue of tool calls that
//! wait for the game to run them.

use crate::gabp::envelope::opt_data;
use crate::gabp::json::{JsonData, JsonValue};
use crate::gabp::keyed::{
    keyed_map, keys_unique, lemma_keyed_absent, lemma_keyed_insert, lemma_keyed_lookup,
    lemma_keyed_remove, lemma_keyed_update,
};
use crate::gabp::text::{debug_quote, debug_text, chars_of, find_char, index_from, is_digit, lemma_index_from, lemma_index_from_is};
use vstd::prelude::*;
use vstd::string::StringExecFns;

verus! {

// ---------------------------------------------------------------------------
// Tool names
// ---------------------------------------------------------------------------

/// An ASCII lower-case letter.
pub open spec fn is_lower(c: char) -> bool {
    97 <= (c as u32) <= 122
}

/// A character allowed after the first one of a name segment.
pub open spec fn is_name_char(c: char) -> bool {
    is_lower(c) || is_digit(c) || c == '_' || c == '-'
}

/// A segment of a tool name: a lower-case letter, then lower-case letters,
/// digits, `_` and `-`.
pub open spec fn valid_segment(seg: Seq<char>) -> bool {
    &&& seg.len() > 0
    &&& is_lower(seg[0])
    &&& forall|i: int| 1 <= i < seg.len() ==> is_name_char(#[trigger] seg[i])
}

/// The pieces of `s` between the separators, from position `start` on
/// (`str::split`).
pub open spec fn split_from(s: Seq<char>, sep: char, start: int) -> Seq<Seq<char>>
    decreases s.len() - start,
{
    if start < 0 || start > s.len() {
        seq![]
    } else {
        let e = index_from(s, sep, start);
        if e >= s.len() {
            seq![s.subrange(start, s.len() as int)]
        } else {
            proof {
                lemma_index_from(s, sep, start);
            }
            seq![s.subrange(start, e)] + split_from(s, sep, e + 1)
        }
    }
}

/// Every piece is a valid segment.
pub open spec fn all_segments_valid(segs: Seq<Seq<char>>) -> bool {
    forall|i: int| 0 <= i < segs.len() ==> valid_segment(#[trigger] segs[i])
}

/// A tool name: two or more valid segments separated by `/`, such as
/// `server/status`.
pub open spec fn valid_tool_name(name: Seq<char>) -> bool {
    let segs = split_from(name, '/', 0);
    segs.len() >= 2 && all_segments_valid(segs)
}

proof fn lemma_split_characters(s: Seq<char>, sep: char, start: int)
    requires
        0 <= start <= s.len(),
        all_segments_valid(split_from(s, sep, start)),
    ensures
        forall|k: int|
            start <= k < s.len() ==> {
                let c = #[trigger] s[k];
                c == sep || (97 <= (c as u32) && (c as u32) <= 122) || (48 <= (c as u32) && (c
                    as u32) <= 57) || c == '_' || c == '-'
            },
    decreases s.len() - start,
{
    let segs = split_from(s, sep, start);
    let e = index_from(s, sep, start);
    lemma_index_from(s, sep, start);
    let piece = s.subrange(start, e);
    assert(segs[0] == piece);
    assert(valid_segment(segs[0]));
    if e < s.len() {
        let rest = split_from(s, sep, e + 1);
        assert(segs == seq![piece] + rest);
        assert forall|j: int| 0 <= j < rest.len() implies valid_segment(#[trigger] rest[j]) by {
            assert(rest[j] == segs[j + 1]);
        }
        lemma_split_characters(s, sep, e + 1);
    }
    assert forall|k: int| start <= k < s.len() implies {
        let c = #[trigger] s[k];
        c == sep || (97 <= (c as u32) && (c as u32) <= 122) || (48 <= (c as u32) && (c as u32)
            <= 57) || c == '_' || c == '-'
    } by {
        if k < e {
            assert(s[k] == piece[k - start]);
            if k > start {
                assert(is_name_char(piece[k - start]));
            }
        }
    }
}

/// Every character of a valid tool name is a lower-case ASCII letter, an
/// ASCII digit, `_`, `-` or the separator `/`, and the name starts with a
/// lower-case letter: a name holding an upper-case letter, a space or any
/// other character is not valid, so registering it is refused.
pub proof fn law_valid_name_characters(name: Seq<char>)
    requires
        valid_tool_name(name),
    ensures
        forall|i: int|
            0 <= i < name.len() ==> {
                let c = #[trigger] name[i];
                c == '/' || (97 <= (c as u32) && (c as u32) <= 122) || (48 <= (c as u32) && (c
                    as u32) <= 57) || c == '_' || c == '-'
            },
        name.len() > 0,
        97 <= (name[0] as u32) <= 122,
{
    lemma_split_characters(name, '/', 0);
    let segs = split_from(name, '/', 0);
    let e = index_from(name, '/', 0);
    lemma_index_from(name, '/', 0);
    assert(segs[0] == name.subrange(0, e));
    assert(valid_segment(segs[0]));
    assert(name[0] == segs[0][0]);
}

/// `v[a..b]` is a valid name segment.
fn segment_is_valid(v: &Vec<char>, a: usize, b: usize) -> (r: bool)
    requires
        a <= b <= v.len(),
    ensures
        r == valid_segment(v@.subrange(a as int, b as int)),
{
    let ghost seg = v@.subrange(a as int, b as int);
    if a == b {
        return false;
    }
    let first = v[a] as u32;
    if !(97 <= first && first <= 122) {
        return false;
    }
    let mut i = a + 1;
    while i < b
        invariant
            a < i <= b <= v.len(),
            seg == v@.subrange(a as int, b as int),
            forall|j: int| 1 <= j < i - a ==> is_name_char(#[trigger] seg[j]),
        decreases b - i,
    {
        let u = v[i] as u32;
        let ok = (97 <= u && u <= 122) || (48 <= u && u <= 57) || v[i] == '_' || v[i] == '-';
        proof {
            assert(seg[i - a] == v@[i as int]);
        }
        if !ok {
            return false;
        }
        i = i + 1;
    }
    true
}

/// Whether `name` is a valid tool name.
pub fn is_valid_tool_name(name: &str) -> (r: bool)
    ensures
        r == valid_tool_name(name@),
{
    let v = chars_of(name);
    let n = v.len();
    let ghost s = name@;
    let mut start: usize = 0;
    let mut count: usize = 0;
    loop
        invariant
            s == name@,
            v@ == s,
            n == s.len(),
            start <= n,
            count <= 2,
            valid_tool_name(s) == (count + split_from(s, '/', start as int).len() >= 2
                && all_segments_valid(split_from(s, '/', start as int))),
        decreases n - start,
    {
        let e = find_char(&v, '/', start, n);
        proof {
            lemma_index_from_is(s, '/', start as int, e as int);
        }
        let ghost seg = s.subrange(start as int, e as int);
        let ghost rest = if e >= n {
            Seq::<Seq<char>>::empty()
        } else {
            split_from(s, '/', e + 1)
        };
        proof {
            assert(split_from(s, '/', start as int) =~= seq![seg] + rest);
            assert((seq![seg] + rest)[0] == seg);
            assert forall|i: int| 0 <= i < rest.len() implies (seq![seg] + rest)[i + 1] == rest[i] by {}
        }
        if !segment_is_valid(&v, start, e) {
            proof {
                assert(!valid_segment((seq![seg] + rest)[0]));
            }
            return false;
        }
        proof {
            if all_segments_valid(rest) {
                assert forall|i: int| 0 <= i < (seq![seg] + rest).len() implies valid_segment(
                    #[trigger] (seq![seg] + rest)[i],
                ) by {
                    if i > 0 {
                        assert((seq![seg] + rest)[i] == rest[i - 1]);
                    }
                }
            }
            if all_segments_valid(seq![seg] + rest) {
                assert forall|i: int| 0 <= i < rest.len() implies valid_segment(#[trigger] rest[i]) by {
                    assert((seq![seg] + rest)[i + 1] == rest[i]);
                }
            }
        }
        proof {
            assert(all_segments_valid(seq![seg] + rest) == all_segments_valid(rest));
            assert((seq![seg] + rest).len() == rest.len() + 1);
        }
        if count < 2 {
            count = count + 1;
        }
        if e >= n {
            proof {
                assert(rest.len() == 0);
                assert(all_segments_valid(rest));
            }
            return count >= 2;
        }
        start = e + 1;
    }
}

// ---------------------------------------------------------------------------
// Name order
// ---------------------------------------------------------------------------

/// `String`'s order: lexicographic by code point (the order of the UTF-8 bytes).
pub open spec fn name_lt(a: Seq<char>, b: Seq<char>) -> bool
    decreases a.len(),
{
    if a.len() == 0 {
        b.len() > 0
    } else if b.len() == 0 {
        false
    } else if a[0] != b[0] {
        (a[0] as u32) < (b[0] as u32)
    } else {
        name_lt(a.drop_first(), b.drop_first())
    }
}

/// Names are ordered as `String`s are: by the code point of the first
/// character in which they differ, whatever their lengths; and a name comes
/// before every longer name that begins with it.
pub proof fn law_name_order(a: Seq<char>, b: Seq<char>, k: int)
    requires
        0 <= k <= a.len(),
        k <= b.len(),
        a.take(k) == b.take(k),
    ensures
        (k < a.len() && k < b.len() && a[k] != b[k]) ==> (name_lt(a, b) <==> (a[k] as u32) < (
        b[k] as u32)),
        (k == a.len() && k < b.len()) ==> name_lt(a, b) && !name_lt(b, a),
    decreases k,
{
    if k > 0 {
        assert(a[0] == a.take(k)[0]);
        assert(b[0] == b.take(k)[0]);
        assert(a[0] == b[0]);
        assert(a.drop_first().take(k - 1) =~= b.drop_first().take(k - 1)) by {
            assert forall|j: int| 0 <= j < k - 1 implies a.drop_first()[j] == b.drop_first()[j] by {
                assert(a.take(k)[j + 1] == a[j + 1]);
                assert(b.take(k)[j + 1] == b[j + 1]);
                assert(a.take(k)[j + 1] == b.take(k)[j + 1]);
            }
        }
        law_name_order(a.drop_first(), b.drop_first(), k - 1);
        if k < a.len() {
            assert(a.drop_first()[k - 1] == a[k]);
        }
        if k < b.len() {
            assert(b.drop_first()[k - 1] == b[k]);
        }
    }
}

/// In a listing in name order, of two tools whose names first differ at
/// position `k`, the one with the smaller character there is listed first;
/// and a name is listed before every longer name that begins with it.
pub proof fn law_listing_order(listing: Seq<DescriptorData>, i: int, j: int, k: int)
    requires
        names_sorted(listing),
        0 <= i < listing.len(),
        0 <= j < listing.len(),
        0 <= k <= listing[i].name.len(),
        k <= listing[j].name.len(),
        listing[i].name.take(k) == listing[j].name.take(k),
    ensures
        (k < listing[i].name.len() && k < listing[j].name.len() && listing[i].name[k]
            != listing[j].name[k]) ==> (i < j <==> (listing[i].name[k] as u32) < (
        listing[j].name[k] as u32)),
        (k == listing[i].name.len() && k < listing[j].name.len()) ==> i < j,
{
    let a = listing[i].name;
    let b = listing[j].name;
    law_name_order(a, b, k);
    law_name_order(b, a, k);
    lemma_name_lt_strict(a, b);
    if i < j {
        assert(name_lt(listing[i].name, listing[j].name));
    } else if j < i {
        assert(name_lt(listing[j].name, listing[i].name));
    }
}

/// `name_lt` is a strict total order.
pub proof fn lemma_name_lt_strict(a: Seq<char>, b: Seq<char>)
    ensures
        name_lt(a, b) ==> !name_lt(b, a) && a != b,
        a != b ==> name_lt(a, b) || name_lt(b, a),
    decreases a.len(),
{
    if a.len() > 0 && b.len() > 0 && a[0] == b[0] {
        lemma_name_lt_strict(a.drop_first(), b.drop_first());
        if a.drop_first() == b.drop_first() {
            assert forall|i: int| 0 <= i < a.len() implies a[i] == b[i] by {
                if i > 0 {
                    assert(a[i] == a.drop_first()[i - 1]);
                    assert(b[i] == b.drop_first()[i - 1]);
                }
            }
            assert(a =~= b);
        }
    }
    if a.len() == 0 && b.len() == 0 {
        assert(a =~= b);
    }
    if a.len() > 0 && b.len() > 0 && a[0] != b[0] {
        let ca = a[0];
        let cb = b[0];
        vstd::utf8::char_u32_cast(ca, ca as u32);
        vstd::utf8::char_u32_cast(cb, cb as u32);
        assert((ca as u32) != (cb as u32));
    }
}

/// `name_lt` is transitive.
pub proof fn lemma_name_lt_trans(a: Seq<char>, b: Seq<char>, c: Seq<char>)
    requires
        name_lt(a, b),
        name_lt(b, c),
    ensures
        name_lt(a, c),
    decreases a.len(),
{
    if a.len() > 0 && b.len() > 0 && c.len() > 0 && a[0] == b[0] && b[0] == c[0] {
        lemma_name_lt_trans(a.drop_first(), b.drop_first(), c.drop_first());
    }
}

/// Compares two names in `String`'s order.
fn name_less(a: &String, b: &String) -> (r: bool)
    ensures
        r == name_lt(a@, b@),
{
    let x = chars_of(a.as_str());
    let y = chars_of(b.as_str());
    let mut i: usize = 0;
    proof {
        assert(a@.skip(0) =~= a@);
        assert(b@.skip(0) =~= b@);
    }
    while i < x.len() && i < y.len() && x[i] == y[i]
        invariant
            x@ == a@,
            y@ == b@,
            i <= x@.len(),
            i <= y@.len(),
            name_lt(a@, b@) == name_lt(a@.skip(i as int), b@.skip(i as int)),
        decreases x@.len() - i,
    {
        proof {
            assert(a@.skip(i as int).drop_first() =~= a@.skip(i + 1));
            assert(b@.skip(i as int).drop_first() =~= b@.skip(i + 1));
        }
        i = i + 1;
    }
    if i == x.len() {
        return i < y.len();
    }
    if i == y.len() {
        return false;
    }
    proof {
        assert(a@.skip(i as int)[0] == x@[i as int]);
        assert(b@.skip(i as int)[0] == y@[i as int]);
    }
    (x[i] as u32) < (y[i] as u32)
}

// ---------------------------------------------------------------------------
// Tool descriptors and the registry
// ---------------------------------------------------------------------------

/// What a tool is called, what it does and what it takes and gives.
#[derive(Debug, PartialEq)]
pub struct ToolDescriptor {
    pub name: String,
    pub description: String,
    pub tags: Vec<String>,
    pub input_schema: JsonValue,
    pub output_schema: Option<JsonValue>,
}

/// The view of a [`ToolDescriptor`].
pub struct DescriptorData {
    pub name: Seq<char>,
    pub description: Seq<char>,
    pub tags: Seq<Seq<char>>,
    pub input_schema: JsonData,
    pub output_schema: Option<JsonData>,
}

/// The views of a list of strings.
pub open spec fn strings_view(v: Seq<String>) -> Seq<Seq<char>> {
    v.map_values(|s: String| s@)
}

impl View for ToolDescriptor {
    type V = DescriptorData;

    open spec fn view(&self) -> DescriptorData {
        DescriptorData {
            name: self.name@,
            description: self.description@,
            tags: strings_view(self.tags@),
            input_schema: self.input_schema@,
            output_schema: opt_data(self.output_schema),
        }
    }
}

/// A copy of a list of strings.
pub fn copy_strings(v: &Vec<String>) -> (r: Vec<String>)
    ensures
        strings_view(r@) == strings_view(v@),
{
    let mut r: Vec<String> = Vec::new();
    let mut i: usize = 0;
    while i < v.len()
        invariant
            i <= v@.len(),
            strings_view(r@) == strings_view(v@.take(i as int)),
        decreases v@.len() - i,
    {
        let ghost before = r@;
        let c = v[i].clone();
        r.push(c);
        i = i + 1;
        proof {
            assert(r@ == before.push(c));
            assert(v@.take(i as int) =~= v@.take(i - 1).push(v@[i - 1]));
            assert(strings_view(r@) =~= strings_view(before).push(c@));
            assert(strings_view(v@.take(i as int)) =~= strings_view(v@.take(i - 1)).push(
                v@[i - 1]@,
            ));
        }
    }
    proof {
        assert(v@.take(i as int) =~= v@);
    }
    r
}

impl ToolDescriptor {
    /// A copy of this descriptor.
    pub fn copy(&self) -> (r: ToolDescriptor)
        ensures
            r@ == self@,
    {
        let output_schema = match &self.output_schema {
            Some(s) => Some(s.deep_copy()),
            None => None,
        };
        ToolDescriptor {
            name: self.name.clone(),
            description: self.description.clone(),
            tags: copy_strings(&self.tags),
            input_schema: self.input_schema.deep_copy(),
            output_schema,
        }
    }
}

/// Why a registry or queue operation was refused.
#[derive(Debug, Clone, PartialEq, Eq)]
pub enum RegistryError {
    InvalidToolName(String),
    ToolNotFound(String),
    DuplicateTool(String),
    LockPoisoned,
}

impl RegistryError {
    /// The `Debug` rendering of this error, as `format!("{:?}", ..)` writes it.
    pub fn debug_string(&self) -> (r: String)
        ensures
            match self {
                RegistryError::InvalidToolName(n) => r@ == "InvalidToolName("@ + debug_text(n@) + ")"@,
                RegistryError::ToolNotFound(n) => r@ == "ToolNotFound("@ + debug_text(n@) + ")"@,
                RegistryError::DuplicateTool(n) => r@ == "DuplicateTool("@ + debug_text(n@) + ")"@,
                RegistryError::LockPoisoned => r@ == "LockPoisoned"@,
            },
    {
        let (mut r, n) = match self {
            RegistryError::InvalidToolName(n) => ("InvalidToolName(".to_owned(), n),
            RegistryError::ToolNotFound(n) => ("ToolNotFound(".to_owned(), n),
            RegistryError::DuplicateTool(n) => ("DuplicateTool(".to_owned(), n),
            RegistryError::LockPoisoned => {
                return "LockPoisoned".to_owned();
            },
        };
        let q = debug_quote(n.as_str());
        r.append(q.as_str());
        r.append(")");
        r
    }
}

/// The names of a listing, in order.
pub open spec fn listing_names(listing: Seq<DescriptorData>) -> Seq<Seq<char>> {
    listing.map_values(|d: DescriptorData| d.name)
}

/// The names of a listing are in strictly increasing order.
pub open spec fn names_sorted(listing: Seq<DescriptorData>) -> bool {
    forall|i: int, j: int|
        0 <= i < j < listing.len() ==> name_lt(#[trigger] listing[i].name, #[trigger] listing[j].name)
}

/// The descriptors of a listing by name.
pub open spec fn tool_map(listing: Seq<DescriptorData>) -> Map<Seq<char>, DescriptorData> {
    keyed_map(listing_names(listing), listing)
}

/// The registered tools, one descriptor per name.
pub struct ToolRegistry {
    tools: Vec<ToolDescriptor>,
}

/// The views of a list of descriptors.
pub open spec fn descriptors_view(v: Seq<ToolDescriptor>) -> Seq<DescriptorData> {
    v.map_values(|d: ToolDescriptor| d@)
}

impl View for ToolRegistry {
    type V = Seq<DescriptorData>;

    /// The registered descriptors in name order.
    closed spec fn view(&self) -> Seq<DescriptorData> {
        descriptors_view(self.tools@)
    }
}

proof fn lemma_sorted_unique(listing: Seq<DescriptorData>)
    requires
        names_sorted(listing),
    ensures
        keys_unique(listing_names(listing)),
{
    let names = listing_names(listing);
    assert forall|i: int, j: int|
        0 <= i < names.len() && 0 <= j < names.len() && i != j implies names[i] != names[j] by {
        if i < j {
            lemma_name_lt_strict(listing[i].name, listing[j].name);
        } else {
            lemma_name_lt_strict(listing[j].name, listing[i].name);
        }
    }
}

impl ToolRegistry {
    #[verifier::type_invariant]
    closed spec fn sorted(self) -> bool {
        names_sorted(descriptors_view(self.tools@))
    }

    /// An empty registry.
    pub fn new() -> (r: Self)
        ensures
            r@ == Seq::<DescriptorData>::empty(),
    {
        let r = ToolRegistry { tools: Vec::new() };
        proof {
            assert(descriptors_view(r.tools@) =~= Seq::<DescriptorData>::empty());
        }
        r
    }

    /// Adds a tool under its name. A name that is not a valid tool name, or
    /// that is taken, is refused and the registry left as it was.
    pub fn register_tool(&mut self, descriptor: ToolDescriptor) -> (r: Result<(), RegistryError>)
        ensures
            names_sorted(final(self)@),
            !valid_tool_name(descriptor.name@) ==> (r matches Err(
                RegistryError::InvalidToolName(n),
            ) && n@ == descriptor.name@ && final(self)@ == old(self)@),
            valid_tool_name(descriptor.name@) && tool_map(old(self)@).contains_key(descriptor.name@)
                ==> (r matches Err(RegistryError::DuplicateTool(n)) && n@ == descriptor.name@
                && final(self)@ == old(self)@),
            valid_tool_name(descriptor.name@) && !tool_map(old(self)@).contains_key(
                descriptor.name@,
            ) ==> r is Ok && tool_map(final(self)@) == tool_map(old(self)@).insert(
                descriptor.name@,
                descriptor@,
            ),
    {
        proof {
            use_type_invariant(&*self);
        }
        if !is_valid_tool_name(descriptor.name.as_str()) {
            return Err(RegistryError::InvalidToolName(descriptor.name));
        }
        let mut tools: Vec<ToolDescriptor> = Vec::new();
        std::mem::swap(&mut tools, &mut self.tools);
        let ghost old_list = descriptors_view(tools@);
        let ghost key = descriptor.name@;
        proof {
            lemma_sorted_unique(old_list);
        }
        let n = tools.len();
        let mut i: usize = 0;
        while i < n && name_less(&tools[i].name, &descriptor.name)
            invariant
                n == tools@.len(),
                old_list == descriptors_view(tools@),
                key == descriptor.name@,
                i <= n,
                forall|j: int| 0 <= j < i ==> name_lt(#[trigger] old_list[j].name, key),
            decreases n - i,
        {
            i = i + 1;
        }
        // Every name before position `i` is smaller than `key`; from `i` on,
        // every name is larger, or the name at `i` is `key` itself.
        if i < n && tools[i].name.eq(&descriptor.name) {
            proof {
                assert(listing_names(old_list)[i as int] == key);
                lemma_keyed_lookup(listing_names(old_list), old_list, i as int);
            }
            self.tools = tools;
            return Err(RegistryError::DuplicateTool(descriptor.name));
        }
        proof {
            if i < n {
                lemma_name_lt_strict(old_list[i as int].name, key);
                assert(name_lt(key, old_list[i as int].name));
                assert forall|j: int| i <= j < n implies name_lt(key, #[trigger] old_list[j].name) by {
                    if j > i {
                        lemma_name_lt_trans(key, old_list[i as int].name, old_list[j].name);
                    }
                }
            }
            assert forall|j: int| 0 <= j < n implies #[trigger] listing_names(old_list)[j] != key by {
                if j < i {
                    lemma_name_lt_strict(old_list[j].name, key);
                } else {
                    lemma_name_lt_strict(key, old_list[j].name);
                }
            }
            lemma_keyed_absent(listing_names(old_list), old_list, key);
            lemma_keyed_insert(listing_names(old_list), old_list, i as int, key, descriptor@);
            let new_list = old_list.insert(i as int, descriptor@);
            assert(listing_names(new_list) =~= listing_names(old_list).insert(i as int, key));
            assert forall|a: int, b: int| 0 <= a < b < new_list.len() implies name_lt(
                #[trigger] new_list[a].name,
                #[trigger] new_list[b].name,
            ) by {
                if b < i {
                } else if b == i {
                    assert(new_list[b] == descriptor@);
                } else if a < i {
                    assert(new_list[b] == old_list[b - 1]);
                    lemma_name_lt_trans(old_list[a].name, key, old_list[b - 1].name);
                } else if a == i {
                    assert(new_list[b] == old_list[b - 1]);
                } else {
                    assert(new_list[a] == old_list[a - 1]);
                    assert(new_list[b] == old_list[b - 1]);
                }
            }
        }
        tools.insert(i, descriptor);
        proof {
            assert(descriptors_view(tools@) =~= old_list.insert(i as int, tools@[i as int]@));
        }
        self.tools = tools;
        Ok(())
    }

    /// Whether a tool is registered under `name`.
    pub fn has_tool(&self, name: &str) -> (r: bool)
        ensures
            r == tool_map(self@).contains_key(name@),
    {
        proof {
            use_type_invariant(self);
            lemma_sorted_unique(self@);
        }
        let n = self.tools.len();
        let mut i: usize = 0;
        while i < n
            invariant
                n == self.tools@.len(),
                i <= n,
                self@ == descriptors_view(self.tools@),
                keys_unique(listing_names(self@)),
                forall|j: int| 0 <= j < i ==> #[trigger] listing_names(self@)[j] != name@,
            decreases n - i,
        {
            if crate::gabp::json::string_eq_str(&self.tools[i].name, name) {
                proof {
                    lemma_keyed_lookup(listing_names(self@), self@, i as int);
                    assert(listing_names(self@)[i as int] == name@);
                }
                return true;
            }
            i = i + 1;
        }
        proof {
            lemma_keyed_absent(listing_names(self@), self@, name@);
        }
        false
    }

    /// Copies of the registered descriptors, in name order.
    pub fn list_tools(&self) -> (r: Vec<ToolDescriptor>)
        ensures
            descriptors_view(r@) == self@,
            names_sorted(self@),
            keys_unique(listing_names(self@)),
    {
        proof {
            use_type_invariant(self);
            lemma_sorted_unique(self@);
        }
        let n = self.tools.len();
        let mut r: Vec<ToolDescriptor> = Vec::new();
        let mut i: usize = 0;
        while i < n
            invariant
                n == self.tools@.len(),
                i <= n,
                descriptors_view(r@) == descriptors_view(self.tools@.take(i as int)),
            decreases n - i,
        {
            let ghost before = r@;
            let c = self.tools[i].copy();
            r.push(c);
            i = i + 1;
            proof {
                assert(r@ == before.push(c));
                assert(self.tools@.take(i as int) =~= self.tools@.take(i - 1).push(
                    self.tools@[i - 1],
                ));
                assert(descriptors_view(r@) =~= descriptors_view(before).push(c@));
                assert(descriptors_view(self.tools@.take(i as int)) =~= descriptors_view(
                    self.tools@.take(i - 1),
                ).push(self.tools@[i - 1]@));
            }
        }
        proof {
            assert(self.tools@.take(i as int) =~= self.tools@);
        }
        r
    }
}

impl Default for ToolRegistry {
    fn default() -> (r: Self)
        ensures
            r@ == Seq::<DescriptorData>::empty(),
    {
        ToolRegistry::new()
    }
}

// ---------------------------------------------------------------------------
// Tool calls and their completions
// ---------------------------------------------------------------------------

/// A tool call that waits for the game to run it.
#[derive(Debug, PartialEq)]
pub struct PendingToolCall {
    pub request_id: String,
    pub tool_name: String,
    pub arguments: JsonValue,
}

/// The view of a [`PendingToolCall`].
pub struct CallData {
    pub request_id: Seq<char>,
    pub tool_name: Seq<char>,
    pub arguments: JsonData,
}

impl View for PendingToolCall {
    type V = CallData;

    open spec fn view(&self) -> CallData {
        CallData {
            request_id: self.request_id@,
            tool_name: self.tool_name@,
            arguments: self.arguments@,
        }
    }
}

/// How a tool call failed.
#[derive(Debug, PartialEq)]
pub struct ToolFailure {
    pub code: i32,
    pub message: String,
    pub data: Option<JsonValue>,
}

/// The view of a [`ToolFailure`].
pub struct FailureData {
    pub code: i32,
    pub message: Seq<char>,
    pub data: Option<JsonData>,
}

impl View for ToolFailure {
    type V = FailureData;

    open spec fn view(&self) -> FailureData {
        FailureData { code: self.code, message: self.message@, data: opt_data(self.data) }
    }
}

/// The outcome of a tool call.
#[derive(Debug, PartialEq)]
pub struct ToolCompletion {
    pub request_id: String,
    pub result: Result<JsonValue, ToolFailure>,
}

/// The view of a [`ToolCompletion`].
pub struct CompletionData {
    pub request_id: Seq<char>,
    pub result: Result<JsonData, FailureData>,
}

impl View for ToolCompletion {
    type V = CompletionData;

    open spec fn view(&self) -> CompletionData {
        CompletionData {
            request_id: self.request_id@,
            result: match self.result {
                Ok(v) => Ok(v@),
                Err(f) => Err(f@),
            },
        }
    }
}

/// Both ends of one unbounded `crossbeam_channel` channel of calls, owned
/// together so that every send and every receive goes through this one
/// value.
#[verifier::external_body]
pub struct CallChannel {
    sender: crossbeam_channel::Sender<PendingToolCall>,
    receiver: crossbeam_channel::Receiver<PendingToolCall>,
}

/// The calls waiting in `channel`, oldest first.
pub uninterp spec fn queued_calls(channel: CallChannel) -> Seq<CallData>;

/// `crossbeam_channel::unbounded`: a new channel, with nothing in it.
#[verifier::external_body]
fn new_call_channel() -> (r: CallChannel)
    ensures
        queued_calls(r) == Seq::<CallData>::empty(),
{
    let (sender, receiver) = crossbeam_channel::unbounded();
    CallChannel { sender, receiver }
}

/// `Sender::send` on the channel's own sending end: the call joins the back
/// of the queue. A send on an unbounded channel fails only when every
/// receiver is gone, and the receiver lives in the same value.
#[verifier::external_body]
fn send_call(channel: &mut CallChannel, call: PendingToolCall)
    ensures
        queued_calls(*final(channel)) == queued_calls(*old(channel)).push(call@),
{
    let _ = channel.sender.send(call);
}

/// `Receiver::try_recv` on the channel's own receiving end: the oldest
/// waiting call, taken off the queue, or `None` when nothing waits.
#[verifier::external_body]
fn receive_call(channel: &mut CallChannel) -> (r: Option<PendingToolCall>)
    ensures
        queued_calls(*old(channel)).len() == 0 ==> r is None && queued_calls(*final(channel))
            == queued_calls(*old(channel)),
        queued_calls(*old(channel)).len() > 0 ==> (r matches Some(c) && c@ == queued_calls(
            *old(channel),
        )[0] && queued_calls(*final(channel)) == queued_calls(*old(channel)).drop_first()),
{
    channel.receiver.try_recv().ok()
}

/// The request ids of a list of completions.
pub open spec fn completion_ids(cs: Seq<CompletionData>) -> Seq<Seq<char>> {
    cs.map_values(|c: CompletionData| c.request_id)
}

/// The completions of a list by request id.
pub open spec fn completion_map(cs: Seq<CompletionData>) -> Map<Seq<char>, CompletionData> {
    keyed_map(completion_ids(cs), cs)
}

/// The views of a list of completions.
pub open spec fn completions_view(v: Seq<ToolCompletion>) -> Seq<CompletionData> {
    v.map_values(|c: ToolCompletion| c@)
}

/// The view of a [`CallQueue`].
pub struct QueueData {
    /// The calls waiting for the game, oldest first.
    pub pending: Seq<CallData>,
    /// The completions not yet collected, by request id.
    pub completions: Map<Seq<char>, CompletionData>,
}

/// The completions not yet collected, at most one per request id.
struct CompletionTable {
    list: Vec<ToolCompletion>,
}

impl CompletionTable {
    #[verifier::type_invariant]
    closed spec fn ids_unique(self) -> bool {
        keys_unique(completion_ids(completions_view(self.list@)))
    }

    closed spec fn map(&self) -> Map<Seq<char>, CompletionData> {
        completion_map(completions_view(self.list@))
    }

    fn new() -> (r: Self)
        ensures
            r.map() == Map::<Seq<char>, CompletionData>::empty(),
    {
        let r = CompletionTable { list: Vec::new() };
        proof {
            assert(r.map() =~= Map::<Seq<char>, CompletionData>::empty());
        }
        r
    }

    fn record(&mut self, completion: ToolCompletion)
        ensures
            final(self).map() == old(self).map().insert(completion.request_id@, completion@),
    {
        proof {
            use_type_invariant(&*self);
        }
        let mut list: Vec<ToolCompletion> = Vec::new();
        std::mem::swap(&mut list, &mut self.list);
        let ghost old_view = completions_view(list@);
        let ghost key = completion.request_id@;
        let n = list.len();
        let mut i: usize = 0;
        while i < n && !list[i].request_id.eq(&completion.request_id)
            invariant
                n == list@.len(),
                old_view == completions_view(list@),
                key == completion.request_id@,
                i <= n,
                forall|j: int| 0 <= j < i ==> #[trigger] completion_ids(old_view)[j] != key,
            decreases n - i,
        {
            i = i + 1;
        }
        let ghost ids = completion_ids(old_view);
        if i < n {
            proof {
                assert(ids[i as int] == key);
                lemma_keyed_update(ids, old_view, i as int, completion@);
                assert(completion_ids(old_view.update(i as int, completion@)) =~= ids);
            }
            list.set(i, completion);
            proof {
                assert(completions_view(list@) =~= old_view.update(i as int, list@[i as int]@));
            }
        } else {
            proof {
                assert(!ids.contains(key));
                lemma_keyed_insert(ids, old_view, n as int, key, completion@);
                assert(completion_ids(old_view.insert(n as int, completion@)) =~= ids.insert(
                    n as int,
                    key,
                ));
            }
            list.push(completion);
            proof {
                assert(completions_view(list@) =~= old_view.insert(n as int, list@[n as int]@));
            }
        }
        self.list = list;
    }

    fn take(&mut self, request_id: &str) -> (r: Option<ToolCompletion>)
        ensures
            old(self).map().contains_key(request_id@) ==> (r matches Some(c) && c@ == old(
                self,
            ).map()[request_id@] && final(self).map() == old(self).map().remove(request_id@)),
            !old(self).map().contains_key(request_id@) ==> r is None && final(self).map() == old(
                self,
            ).map(),
    {
        proof {
            use_type_invariant(&*self);
        }
        let mut list: Vec<ToolCompletion> = Vec::new();
        std::mem::swap(&mut list, &mut self.list);
        let ghost old_view = completions_view(list@);
        let ghost ids = completion_ids(old_view);
        let n = list.len();
        let mut i: usize = 0;
        while i < n && !crate::gabp::json::string_eq_str(&list[i].request_id, request_id)
            invariant
                n == list@.len(),
                old_view == completions_view(list@),
                ids == completion_ids(old_view),
                i <= n,
                forall|j: int| 0 <= j < i ==> #[trigger] ids[j] != request_id@,
            decreases n - i,
        {
            i = i + 1;
        }
        if i < n {
            proof {
                assert(ids[i as int] == request_id@);
                lemma_keyed_lookup(ids, old_view, i as int);
                lemma_keyed_remove(ids, old_view, i as int);
                assert(completion_ids(old_view.remove(i as int)) =~= ids.remove(i as int));
            }
            let c = list.remove(i);
            proof {
                assert(completions_view(list@) =~= old_view.remove(i as int));
            }
            self.list = list;
            Some(c)
        } else {
            proof {
                lemma_keyed_absent(ids, old_view, request_id@);
            }
            self.list = list;
            None
        }
    }
}

/// Tool calls waiting for the game, and the completions that the game has
/// reported and nobody has collected yet.
pub struct CallQueue {
    channel: CallChannel,
    completions: CompletionTable,
}

impl View for CallQueue {
    type V = QueueData;

    closed spec fn view(&self) -> QueueData {
        QueueData { pending: queued_calls(self.channel), completions: self.completions.map() }
    }
}

impl CallQueue {
    /// An empty queue.
    pub fn new() -> (r: Self)
        ensures
            r@.pending == Seq::<CallData>::empty(),
            r@.completions == Map::<Seq<char>, CompletionData>::empty(),
    {
        CallQueue { channel: new_call_channel(), completions: CompletionTable::new() }
    }

    /// Puts a call at the back of the queue.
    pub fn enqueue(&mut self, call: PendingToolCall)
        ensures
            final(self)@.pending == old(self)@.pending.push(call@),
            final(self)@.completions == old(self)@.completions,
    {
        send_call(&mut self.channel, call);
    }

    /// Takes the oldest waiting call, if any.
    pub fn try_dequeue(&mut self) -> (r: Option<PendingToolCall>)
        ensures
            old(self)@.pending.len() == 0 ==> r is None && final(self)@ == old(self)@,
            old(self)@.pending.len() > 0 ==> (r matches Some(c) && c@ == old(self)@.pending[0]
                && final(self)@.pending == old(self)@.pending.drop_first()
                && final(self)@.completions == old(self)@.completions),
    {
        receive_call(&mut self.channel)
    }

    /// Records the outcome of a call; a later outcome for the same request
    /// id replaces an earlier one.
    pub fn complete(&mut self, completion: ToolCompletion) -> (r: Result<(), RegistryError>)
        ensures
            r is Ok,
            final(self)@.pending == old(self)@.pending,
            final(self)@.completions == old(self)@.completions.insert(
                completion.request_id@,
                completion@,
            ),
    {
        self.completions.record(completion);
        Ok(())
    }

    /// Takes the completion recorded for `request_id`, if there is one.
    pub fn take_completion(&mut self, request_id: &str) -> (r: Option<ToolCompletion>)
        ensures
            final(self)@.pending == old(self)@.pending,
            old(self)@.completions.contains_key(request_id@) ==> (r matches Some(c) && c@
                == old(self)@.completions[request_id@] && final(self)@.completions == old(
                self,
            )@.completions.remove(request_id@)),
            !old(self)@.completions.contains_key(request_id@) ==> r is None && final(self)@
                == old(self)@,
    {
        self.completions.take(request_id)
    }
}

/// How long to sleep between two looks for a completion, in milliseconds.
pub const COMPLETION_POLL_MS: u64 = 5;

/// What waiting for a completion does next.
pub enum WaitStep {
    /// Stop waiting, with the completion found, or `None` when time is up.
    Finish(Option<ToolCompletion>),
    /// Sleep this many milliseconds, then look again.
    Sleep(u64),
}

/// One round of waiting for the completion of a call: given what the last
/// look found and how long the wait has lasted so far, finish with the
/// completion; once `timeout_ms` has passed, finish without one; else sleep
/// [`COMPLETION_POLL_MS`] and look again.
pub fn completion_wait_step(found: Option<ToolCompletion>, elapsed_ms: u64, timeout_ms: u64) -> (r:
    WaitStep)
    ensures
        found matches Some(c) ==> (r matches WaitStep::Finish(Some(d)) && d == c),
        found is None && elapsed_ms >= timeout_ms ==> r matches WaitStep::Finish(None),
        found is None && elapsed_ms < timeout_ms ==> (r matches WaitStep::Sleep(ms) && ms
            == COMPLETION_POLL_MS),
{
    match found {
        Some(c) => WaitStep::Finish(Some(c)),
        None => if elapsed_ms >= timeout_ms {
            WaitStep::Finish(None)
        } else {
            WaitStep::Sleep(COMPLETION_POLL_MS)
        },
    }
}

/// Registering a new tool adds exactly that tool: it is found under its
/// name with the descriptor given, and every other name keeps what it had.
pub proof fn law_registration_adds_one(
    before: Seq<DescriptorData>,
    after: Seq<DescriptorData>,
    d: DescriptorData,
)
    requires
        tool_map(after) == tool_map(before).insert(d.name, d),
    ensures
        tool_map(after).contains_key(d.name),
        tool_map(after)[d.name] == d,
        forall|n: Seq<char>|
            n != d.name ==> (#[trigger] tool_map(after).contains_key(n) == tool_map(
                before,
            ).contains_key(n)),
        forall|n: Seq<char>|
            n != d.name && tool_map(before).contains_key(n) ==> #[trigger] tool_map(after)[n]
                == tool_map(before)[n],
{
}

/// Calls leave the queue in the order in which they entered it.
pub proof fn law_queue_order(q: Seq<CallData>, c: CallData)
    ensures
        q.len() == 0 ==> q.push(c)[0] == c && q.push(c).drop_first() == q,
        q.len() > 0 ==> q.push(c)[0] == q[0] && q.push(c).drop_first() == q.drop_first().push(c),
{
    if q.len() == 0 {
        assert(q.push(c).drop_first() =~= q);
    } else {
        assert(q.push(c).drop_first() =~= q.drop_first().push(c));
    }
}

/// The waiting calls after each of `calls` was put at the back, in order
/// (what [`CallQueue::enqueue`] does to them, call by call).
pub open spec fn after_enqueues(q: Seq<CallData>, calls: Seq<CallData>) -> Seq<CallData>
    decreases calls.len(),
{
    if calls.len() == 0 {
        q
    } else {
        after_enqueues(q.push(calls[0]), calls.drop_first())
    }
}

/// The waiting calls after `k` attempts to take the oldest one (what
/// [`CallQueue::try_dequeue`] does to them, attempt by attempt).
pub open spec fn after_dequeues(q: Seq<CallData>, k: nat) -> Seq<CallData>
    decreases k,
{
    if k == 0 || q.len() == 0 {
        q
    } else {
        after_dequeues(q.drop_first(), (k - 1) as nat)
    }
}

proof fn lemma_after_enqueues(q: Seq<CallData>, calls: Seq<CallData>)
    ensures
        after_enqueues(q, calls) == q + calls,
    decreases calls.len(),
{
    if calls.len() > 0 {
        lemma_after_enqueues(q.push(calls[0]), calls.drop_first());
        assert(q.push(calls[0]) + calls.drop_first() =~= q + calls);
    } else {
        assert(q + calls =~= q);
    }
}

proof fn lemma_after_dequeues(q: Seq<CallData>, k: nat)
    ensures
        k <= q.len() ==> after_dequeues(q, k) == q.skip(k as int),
        k >= q.len() ==> after_dequeues(q, k).len() == 0,
    decreases k,
{
    if k == 0 {
        assert(q.skip(0) =~= q);
    } else if q.len() > 0 {
        lemma_after_dequeues(q.drop_first(), (k - 1) as nat);
        if k <= q.len() {
            assert(q.drop_first().skip(k - 1) =~= q.skip(k as int));
        }
    }
}

/// Calls are handed out first in, first out, each exactly once: after
/// `calls` were enqueued, one by one, on a queue with nothing waiting, the
/// `k`-th attempt to dequeue finds `calls[k]` at the front, and once all
/// of them were taken nothing is left, so a further attempt finds none.
pub proof fn law_queue_fifo(calls: Seq<CallData>)
    ensures
        after_enqueues(Seq::<CallData>::empty(), calls) == calls,
        forall|k: nat|
            k < calls.len() ==> {
                let q = #[trigger] after_dequeues(
                    after_enqueues(Seq::<CallData>::empty(), calls),
                    k,
                );
                q.len() > 0 && q[0] == calls[k as int]
            },
        after_dequeues(after_enqueues(Seq::<CallData>::empty(), calls), calls.len()).len() == 0,
{
    lemma_after_enqueues(Seq::<CallData>::empty(), calls);
    assert(Seq::<CallData>::empty() + calls =~= calls);
    assert forall|k: nat| k < calls.len() implies {
        let q = #[trigger] after_dequeues(after_enqueues(Seq::<CallData>::empty(), calls), k);
        q.len() > 0 && q[0] == calls[k as int]
    } by {
        lemma_after_dequeues(calls, k);
    }
    lemma_after_dequeues(calls, calls.len());
}

/// Taking the completion of a request gives back what was last recorded for
/// it, and leaves the other completions as they were.
pub proof fn law_take_returns_recorded(before: Map<Seq<char>, CompletionData>, c: CompletionData)
    ensures
        before.insert(c.request_id, c).contains_key(c.request_id),
        before.insert(c.request_id, c)[c.request_id] == c,
        before.insert(c.request_id, c).remove(c.request_id) == before.remove(c.request_id),
{
    assert(before.insert(c.request_id, c).remove(c.request_id) =~= before.remove(c.request_id));
}

impl Default for CallQueue {
    fn default() -> (r: Self)
        ensures
            r@.pending == Seq::<CallData>::empty(),
            r@.completions == Map::<Seq<char>, CompletionData>::empty(),
    {
        CallQueue::new()
    }
}

} // verus!
