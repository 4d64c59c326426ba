//! Table schemas: each table's data-file name and its ordered field list,
//! keyed by table name. Field order is the on-disk column position.

use vstd::prelude::*;
use vstd::string::StrSliceExecFns;
use vstd::string::StringExecFns;

use crate::error::Error;
use crate::text::is_ws;
use crate::text::find_from;
use crate::text::match_at;
use crate::text::lemma_find_props;
use crate::text::skip_ws;
use crate::text::spec_find;
use crate::text::spec_skip_ws;
use crate::text::starts_with_at;
use crate::text::str_eq;
use crate::text::substring;

verus! {

/// One table's schema: the name of its data file and its fields in column
/// order.
#[derive(Clone, Debug, PartialEq)]
pub struct TableInfo {
    pub unl_file: String,
    pub fields: Vec<String>,
}

impl TableInfo {
    /// The field names as character sequences, in column order.
    pub open spec fn fields_view(&self) -> Seq<Seq<char>> {
        self.fields.deep_view()
    }
}

/// Index of the first entry whose name is `name`.
pub open spec fn spec_entry_index(entries: Seq<(String, TableInfo)>, name: Seq<char>) -> Option<
    int,
>
    decreases entries.len(),
{
    if entries.len() == 0 {
        None
    } else if entries[0].0@ == name {
        Some(0int)
    } else {
        match spec_entry_index(entries.drop_first(), name) {
            Some(i) => Some(i + 1),
            None => None,
        }
    }
}

pub proof fn lemma_entry_index_props(entries: Seq<(String, TableInfo)>, name: Seq<char>)
    ensures
        match spec_entry_index(entries, name) {
            Some(i) => 0 <= i < entries.len() && entries[i].0@ == name && forall|j: int|
                0 <= j < i ==> (#[trigger] entries[j]).0@ != name,
            None => forall|j: int| 0 <= j < entries.len() ==> (#[trigger] entries[j]).0@ != name,
        },
    decreases entries.len(),
{
    if entries.len() > 0 && entries[0].0@ != name {
        let rest = entries.drop_first();
        lemma_entry_index_props(rest, name);
        match spec_entry_index(rest, name) {
            Some(i) => {
                assert(entries[i + 1] == rest[i]);
                assert forall|j: int| 0 <= j < i + 1 implies (#[trigger] entries[j]).0@
                    != name by {
                    if j > 0 {
                        assert(entries[j] == rest[j - 1]);
                    }
                }
            },
            None => {
                assert forall|j: int| 0 <= j < entries.len() implies (#[trigger] entries[j]).0@
                    != name by {
                    if j > 0 {
                        assert(entries[j] == rest[j - 1]);
                    }
                }
            },
        }
    }
}

/// The mapping from table name to schema, in insertion order. Stands in for a
/// hash map; the name of each entry is unique.
#[derive(Debug)]
pub struct TableCatalog {
    pub entries: Vec<(String, TableInfo)>,
}

impl TableCatalog {
    /// Names are unique: lookup by name is unambiguous.
    pub open spec fn wf(&self) -> bool {
        forall|i: int, j: int|
            0 <= i < j < self.entries@.len() ==> (#[trigger] self.entries@[i]).0@ != (
            #[trigger] self.entries@[j]).0@
    }

    pub open spec fn has(&self, name: Seq<char>) -> bool {
        spec_entry_index(self.entries@, name) is Some
    }

    pub open spec fn info_of(&self, name: Seq<char>) -> TableInfo {
        self.entries@[spec_entry_index(self.entries@, name)->Some_0].1
    }

    /// The field list of table `name`, empty if the table is unknown.
    pub open spec fn fields_of(&self, name: Seq<char>) -> Seq<Seq<char>> {
        if self.has(name) {
            self.info_of(name).fields_view()
        } else {
            Seq::empty()
        }
    }

    pub fn new() -> (r: TableCatalog)
        ensures
            r.entries@.len() == 0,
            r.wf(),
    {
        TableCatalog { entries: Vec::new() }
    }

    pub fn len(&self) -> (n: usize)
        ensures
            n == self.entries@.len(),
    {
        self.entries.len()
    }

    pub fn is_empty(&self) -> (r: bool)
        ensures
            r == (self.entries@.len() == 0),
    {
        self.entries.len() == 0
    }

    /// Index of the entry named `name`, if any.
    pub fn index_of(&self, name: &str) -> (r: Option<usize>)
        ensures
            match r {
                Some(i) => spec_entry_index(self.entries@, name@) == Some(i as int),
                None => spec_entry_index(self.entries@, name@) is None,
            },
    {
        proof {
            lemma_entry_index_props(self.entries@, name@);
        }
        let n = self.entries.len();
        let mut i: usize = 0;
        while i < n
            invariant
                n == self.entries@.len(),
                0 <= i <= n,
                forall|j: int| 0 <= j < i ==> (#[trigger] self.entries@[j]).0@ != name@,
                match spec_entry_index(self.entries@, name@) {
                    Some(k) => 0 <= k < n && self.entries@[k].0@ == name@ && forall|j: int|
                        0 <= j < k ==> (#[trigger] self.entries@[j]).0@ != name@,
                    None => forall|j: int|
                        0 <= j < n ==> (#[trigger] self.entries@[j]).0@ != name@,
                },
            decreases n - i,
        {
            if str_eq(self.entries[i].0.as_str(), name) {
                return Some(i);
            }
            i += 1;
        }
        None
    }

    /// Schema of table `name`, if the catalog holds it.
    pub fn get(&self, name: &str) -> (r: Option<&TableInfo>)
        ensures
            r is Some <==> self.has(name@),
            r is Some ==> *r->Some_0 == self.info_of(name@),
    {
        proof {
            lemma_entry_index_props(self.entries@, name@);
        }
        match self.index_of(name) {
            Some(i) => Some(&self.entries[i].1),
            None => None,
        }
    }

    /// Add a table's schema, replacing an entry of the same name.
    pub fn insert(&mut self, name: String, info: TableInfo)
        requires
            old(self).wf(),
        ensures
            final(self).wf(),
            final(self).has(name@),
            final(self).info_of(name@) == info,
            final(self).entries@.len() >= 1,
            forall|other: Seq<char>|
                other != name@ ==> (#[trigger] final(self).has(other) == old(self).has(other) && (
                final(self).has(other) ==> final(self).info_of(other) == old(self).info_of(
                    other,
                ))),
    {
        proof {
            lemma_entry_index_props(self.entries@, name@);
        }
        let ghost pre = self.entries@;
        let ghost name_v = name@;
        match self.index_of(name.as_str()) {
            Some(i) => {
                proof {
                    assert(spec_entry_index(pre, name_v) == Some(i as int));
                    assert(pre[i as int].0@ == name_v);
                }
                self.entries.set(i, (name, info));
                proof {
                    let post = self.entries@;
                    assert(post[i as int].0@ == name_v);
                    assert(post[i as int].0@ == pre[i as int].0@);
                    assert forall|other: Seq<char>|
                        #[trigger] spec_entry_index(post, other) == spec_entry_index(
                            pre,
                            other,
                        ) by {
                        assert(forall|j: int|
                            0 <= j < pre.len() ==> (#[trigger] post[j]).0@ == pre[j].0@);
                        lemma_entry_index_congruent(pre, post, other);
                    }
                    assert forall|a: int, b: int|
                        0 <= a < b < post.len() implies (#[trigger] post[a]).0@ != (
                    #[trigger] post[b]).0@ by {
                        assert(post[a].0@ == pre[a].0@);
                        assert(post[b].0@ == pre[b].0@);
                    }
                    lemma_entry_index_props(post, name_v);
                    assert forall|other: Seq<char>|
                        other != name_v && #[trigger] spec_entry_index(post, other)
                            is Some implies post[spec_entry_index(post, other)->Some_0].1
                        == pre[spec_entry_index(pre, other)->Some_0].1 by {
                        lemma_entry_index_props(pre, other);
                        let k = spec_entry_index(pre, other)->Some_0;
                        assert(pre[k].0@ == other);
                        assert(k != i as int);
                        assert(post[k].1 == pre[k].1);
                    }
                }
            },
            None => {
                self.entries.push((name, info));
                proof {
                    let post = self.entries@;
                    assert forall|other: Seq<char>| true implies ((#[trigger] spec_entry_index(
                        post,
                        other,
                    )) == if other == name_v {
                        Some(pre.len() as int)
                    } else {
                        spec_entry_index(pre, other)
                    }) by {
                        lemma_push_lookup_one(pre, post, other);
                        lemma_entry_index_props(pre, other);
                        if other == name_v {
                            assert(spec_entry_index(pre, other) is None);
                        }
                    }
                    assert forall|a: int, b: int|
                        0 <= a < b < post.len() implies (#[trigger] post[a]).0@ != (
                    #[trigger] post[b]).0@ by {
                        if b < pre.len() {
                            assert(pre[a].0@ != pre[b].0@);
                        } else {
                            assert(post[b].0@ == name_v);
                            assert(post[a].0@ == pre[a].0@);
                            assert(pre[a].0@ != name_v);
                        }
                    }
                    lemma_entry_index_props(post, name_v);
                    assert forall|other: Seq<char>|
                        other != name_v && #[trigger] spec_entry_index(post, other)
                            is Some implies post[spec_entry_index(post, other)->Some_0].1
                        == pre[spec_entry_index(pre, other)->Some_0].1 by {
                        lemma_entry_index_props(pre, other);
                        let k = spec_entry_index(pre, other)->Some_0;
                        assert(0 <= k < pre.len());
                        assert(post[k] == pre[k]);
                    }
                }
            },
        }
    }
}

proof fn lemma_entry_index_congruent(
    pre: Seq<(String, TableInfo)>,
    post: Seq<(String, TableInfo)>,
    name: Seq<char>,
)
    requires
        post.len() == pre.len(),
        forall|j: int| 0 <= j < pre.len() ==> (#[trigger] post[j]).0@ == pre[j].0@,
    ensures
        spec_entry_index(post, name) == spec_entry_index(pre, name),
    decreases pre.len(),
{
    if pre.len() > 0 {
        assert(post[0].0@ == pre[0].0@);
        assert(forall|j: int|
            0 <= j < pre.drop_first().len() ==> (#[trigger] post.drop_first()[j]).0@
                == pre.drop_first()[j].0@);
        lemma_entry_index_congruent(pre.drop_first(), post.drop_first(), name);
    }
}

// ---------------------------------------------------------------------------
// The DDL grammar, as a two-stage scanner: split the text into per-table
// blocks on the table marker, then match the directive, the create-table
// statement and the column lines of each block.
// ---------------------------------------------------------------------------
/// The per-table block marker.
pub open spec fn tbl_marker() -> Seq<char> {
    seq!['{', ' ', 'T', 'A', 'B', 'L', 'E']
}

/// The data-file directive.
pub open spec fn unl_marker() -> Seq<char> {
    seq!['u', 'n', 'l', 'o', 'a', 'd', ' ', 'f', 'i', 'l', 'e', ' ', 'n', 'a', 'm', 'e']
}

pub open spec fn create_marker() -> Seq<char> {
    seq!['c', 'r', 'e', 'a', 't', 'e', ' ', 't', 'a', 'b', 'l', 'e']
}

/// The quoted owner qualifier before the table name.
pub open spec fn owner_marker() -> Seq<char> {
    seq!['"', 'i', 'n', 'f', 'o', 'r', 'm', 'i', 'x', '"']
}

pub open spec fn extent_kw() -> Seq<char> {
    seq!['e', 'x', 't', 'e', 'n', 't']
}

pub open spec fn unl_suffix() -> Seq<char> {
    seq!['.', 'u', 'n', 'l']
}

/// End of a whitespace-delimited token: the first whitespace at or after `i`.
pub open spec fn spec_token_end(s: Seq<char>, i: int) -> int
    decreases s.len() - i,
{
    if i < 0 || i >= s.len() || is_ws(s[i]) {
        i
    } else {
        spec_token_end(s, i + 1)
    }
}

/// End of a table name: the first quote, whitespace or parenthesis.
pub open spec fn spec_name_end(s: Seq<char>, i: int) -> int
    decreases s.len() - i,
{
    if i < 0 || i >= s.len() || s[i] == '"' || is_ws(s[i]) || s[i] == '(' {
        i
    } else {
        spec_name_end(s, i + 1)
    }
}

/// End of a column identifier: the first quote, comma or whitespace.
pub open spec fn spec_ident_end(s: Seq<char>, i: int) -> int
    decreases s.len() - i,
{
    if i < 0 || i >= s.len() || s[i] == '"' || s[i] == ',' || is_ws(s[i]) {
        i
    } else {
        spec_ident_end(s, i + 1)
    }
}

/// End of the current line: the first newline at or after `i`, or the end.
pub open spec fn spec_line_end(s: Seq<char>, i: int) -> int
    decreases s.len() - i,
{
    if i < 0 || i >= s.len() || s[i] == '\n' {
        i
    } else {
        spec_line_end(s, i + 1)
    }
}

/// The closing parenthesis of the column section: the first `)` that is
/// followed, after whitespace, by the keyword `extent`.
pub open spec fn spec_close_extent(s: Seq<char>, i: int) -> Option<int>
    decreases s.len() - i,
{
    if i < 0 || i >= s.len() {
        None
    } else if s[i] == ')' && match_at(s, extent_kw(), spec_skip_ws(s, i + 1)) {
        Some(i)
    } else {
        spec_close_extent(s, i + 1)
    }
}

/// One of the recognized column type keywords occurs at `p`.
pub open spec fn is_type_keyword_at(s: Seq<char>, p: int) -> bool {
    ||| match_at(s, seq!['s', 'e', 'r', 'i', 'a', 'l'], p)
    ||| match_at(s, seq!['i', 'n', 't', 'e', 'g', 'e', 'r'], p)
    ||| match_at(s, seq!['v', 'a', 'r', 'c', 'h', 'a', 'r'], p)
    ||| match_at(s, seq!['c', 'h', 'a', 'r'], p)
    ||| match_at(s, seq!['d', 'a', 't', 'e'], p)
    ||| match_at(s, seq!['d', 'a', 't', 'e', 't', 'i', 'm', 'e'], p)
    ||| match_at(s, seq!['d', 'e', 'c', 'i', 'm', 'a', 'l'], p)
    ||| match_at(s, seq!['b', 'l', 'o', 'b'], p)
    ||| match_at(s, seq!['s', 'e', 't'], p)
}

/// The data-file name of a block: after the directive and `=`, a
/// whitespace-delimited token ending in `.unl`. `None` when the block has no
/// such directive (the block is skipped).
pub open spec fn spec_block_unl(b: Seq<char>) -> Option<Seq<char>> {
    match spec_find(b, unl_marker(), 0) {
        None => None,
        Some(p) => {
            let q = spec_skip_ws(b, p + unl_marker().len());
            if q < b.len() && b[q] == '=' {
                let u = spec_skip_ws(b, q + 1);
                let e = spec_token_end(b, u);
                let tok = b.subrange(u, e);
                if tok.len() > 4 && tok.subrange(tok.len() - 4, tok.len() as int) == unl_suffix() {
                    Some(tok)
                } else {
                    None
                }
            } else {
                None
            }
        },
    }
}

/// The table name and the parenthesized column section of a block's
/// create-table statement. `None` when the block has no such statement (the
/// block is skipped).
pub open spec fn spec_block_create(b: Seq<char>) -> Option<(Seq<char>, Seq<char>)> {
    match spec_find(b, create_marker(), 0) {
        None => None,
        Some(p) => {
            let q = spec_skip_ws(b, p + create_marker().len());
            if match_at(b, owner_marker(), q) {
                let r0 = q + owner_marker().len();
                let r1 = if r0 < b.len() && b[r0] == '.' {
                    r0 + 1
                } else {
                    r0
                };
                let r2 = if r1 < b.len() && b[r1] == '"' {
                    r1 + 1
                } else {
                    r1
                };
                let ne = spec_name_end(b, r2);
                if ne > r2 {
                    let name = b.subrange(r2, ne);
                    let s0 = if ne < b.len() && b[ne] == '"' {
                        ne + 1
                    } else {
                        ne
                    };
                    let s1 = spec_skip_ws(b, s0);
                    if s1 < b.len() && b[s1] == '(' {
                        match spec_close_extent(b, s1 + 1) {
                            None => None,
                            Some(cp) => if s1 + 1 <= cp {
                                Some((name, b.subrange(s1 + 1, cp)))
                            } else {
                                None
                            },
                        }
                    } else {
                        None
                    }
                } else {
                    None
                }
            } else {
                None
            }
        },
    }
}

/// The field name declared by one column line: an optionally quoted
/// identifier, then at least one whitespace character, then a recognized
/// type keyword.
pub open spec fn spec_field_line(line: Seq<char>) -> Option<Seq<char>> {
    let i0 = spec_skip_ws(line, 0);
    let i1 = if i0 < line.len() && line[i0] == '"' {
        i0 + 1
    } else {
        i0
    };
    let ie = spec_ident_end(line, i1);
    if ie > i1 {
        let ident = line.subrange(i1, ie);
        let j0 = if ie < line.len() && line[ie] == '"' {
            ie + 1
        } else {
            ie
        };
        let j1 = spec_skip_ws(line, j0);
        if j1 > j0 && is_type_keyword_at(line, j1) {
            Some(ident)
        } else {
            None
        }
    } else {
        None
    }
}

/// The field names of a column section, one per line that declares a
/// recognized column type, in line order.
pub open spec fn spec_fields(sec: Seq<char>, pos: int) -> Seq<Seq<char>>
    decreases sec.len() + 1 - pos
        when 0 <= pos <= sec.len() + 1
{
    if pos < 0 || pos >= sec.len() {
        Seq::empty()
    } else {
        let le = spec_line_end(sec, pos);
        let line = sec.subrange(pos, le);
        let rest = if pos < le + 1 <= sec.len() + 1 {
            spec_fields(sec, le + 1)
        } else {
            Seq::empty()
        };
        match spec_field_line(line) {
            Some(f) => seq![f] + rest,
            None => rest,
        }
    }
}

/// The parsed tables of the DDL text from `pos` on, in block order, each as
/// (table name, data-file name, field names). `None` means a matched table
/// declared no recognizable columns: the whole parse fails.
pub open spec fn spec_scan(s: Seq<char>, pos: int) -> Option<
    Seq<(Seq<char>, Seq<char>, Seq<Seq<char>>)>,
>
    decreases s.len() - pos
        when 0 <= pos <= s.len()
{
    match spec_find(s, tbl_marker(), pos) {
        None => Some(Seq::empty()),
        Some(mk) => {
            let bstart = mk + tbl_marker().len();
            let bend = match spec_find(s, tbl_marker(), bstart) {
                None => s.len() as int,
                Some(nx) => nx,
            };
            if pos < bend && 0 <= bstart <= bend <= s.len() {
                let block = s.subrange(bstart, bend);
                let rest = spec_scan(s, bend);
                match spec_block_unl(block) {
                    None => rest,
                    Some(unl) => match spec_block_create(block) {
                        None => rest,
                        Some((name, section)) => {
                            let fields = spec_fields(section, 0);
                            if fields.len() == 0 {
                                None
                            } else {
                                match rest {
                                    None => None,
                                    Some(es) => Some(seq![(name, unl, fields)] + es),
                                }
                            }
                        },
                    },
                }
            } else {
                Some(Seq::empty())
            }
        },
    }
}

/// Entry `k` is the last with its table name.
pub open spec fn is_last_occurrence(
    entries: Seq<(Seq<char>, Seq<char>, Seq<Seq<char>>)>,
    k: int,
) -> bool {
    forall|k2: int| k < k2 < entries.len() ==> (#[trigger] entries[k2]).0 != entries[k].0
}

/// The catalog holds exactly the parsed table names, each mapped to the
/// data-file name and field list of its last parsed entry.
pub open spec fn catalog_matches(
    cat: TableCatalog,
    entries: Seq<(Seq<char>, Seq<char>, Seq<Seq<char>>)>,
) -> bool {
    &&& forall|name: Seq<char>|
        #[trigger] cat.has(name) <==> exists|k: int|
            0 <= k < entries.len() && (#[trigger] entries[k]).0 == name
    &&& forall|k: int|
        0 <= k < entries.len() && is_last_occurrence(entries, k) ==> {
            &&& cat.has((#[trigger] entries[k]).0)
            &&& cat.info_of(entries[k].0).unl_file@ == entries[k].1
            &&& cat.info_of(entries[k].0).fields.deep_view() == entries[k].2
        }
}

/// Appending an entry leaves lookups of existing names unchanged and makes
/// the new name found (at the end, if it was absent).
proof fn lemma_push_lookup_one(
    pre: Seq<(String, TableInfo)>,
    post: Seq<(String, TableInfo)>,
    name: Seq<char>,
)
    requires
        post.len() == pre.len() + 1,
        forall|j: int| 0 <= j < pre.len() ==> post[j] == pre[j],
    ensures
        spec_entry_index(pre, name) is Some ==> spec_entry_index(post, name) == spec_entry_index(
            pre,
            name,
        ),
        spec_entry_index(pre, name) is None && post[pre.len() as int].0@ == name
            ==> spec_entry_index(post, name) == Some(pre.len() as int),
        spec_entry_index(pre, name) is None && post[pre.len() as int].0@ != name
            ==> spec_entry_index(post, name) is None,
    decreases pre.len(),
{
    if pre.len() == 0 {
    } else {
        assert(post[0] == pre[0]);
        assert(forall|j: int|
            0 <= j < pre.drop_first().len() ==> #[trigger] post.drop_first()[j]
                == pre.drop_first()[j]);
        assert(post.drop_first()[pre.len() - 1] == post[pre.len() as int]);
        lemma_push_lookup_one(pre.drop_first(), post.drop_first(), name);
    }
}


// ---------------------------------------------------------------------------
// The executable scanner, each step proved equal to its specification.
// ---------------------------------------------------------------------------
fn token_end(s: &str, from: usize) -> (r: usize)
    requires
        from <= s@.len(),
    ensures
        r == spec_token_end(s@, from as int),
        from <= r <= s@.len(),
{
    let n = s.unicode_len();
    let mut i: usize = from;
    while i < n
        invariant
            n == s@.len(),
            from <= i <= n,
            spec_token_end(s@, from as int) == spec_token_end(s@, i as int),
        decreases n - i,
    {
        let c = s.get_char(i);
        if c == ' ' || c == '\t' || c == '\n' || c == '\r' {
            return i;
        }
        i += 1;
    }
    i
}

fn name_end(s: &str, from: usize) -> (r: usize)
    requires
        from <= s@.len(),
    ensures
        r == spec_name_end(s@, from as int),
        from <= r <= s@.len(),
{
    let n = s.unicode_len();
    let mut i: usize = from;
    while i < n
        invariant
            n == s@.len(),
            from <= i <= n,
            spec_name_end(s@, from as int) == spec_name_end(s@, i as int),
        decreases n - i,
    {
        let c = s.get_char(i);
        if c == '"' || c == ' ' || c == '\t' || c == '\n' || c == '\r' || c == '(' {
            return i;
        }
        i += 1;
    }
    i
}

fn ident_end(s: &str, from: usize) -> (r: usize)
    requires
        from <= s@.len(),
    ensures
        r == spec_ident_end(s@, from as int),
        from <= r <= s@.len(),
{
    let n = s.unicode_len();
    let mut i: usize = from;
    while i < n
        invariant
            n == s@.len(),
            from <= i <= n,
            spec_ident_end(s@, from as int) == spec_ident_end(s@, i as int),
        decreases n - i,
    {
        let c = s.get_char(i);
        if c == '"' || c == ',' || c == ' ' || c == '\t' || c == '\n' || c == '\r' {
            return i;
        }
        i += 1;
    }
    i
}

fn line_end(s: &str, from: usize) -> (r: usize)
    requires
        from <= s@.len(),
    ensures
        r == spec_line_end(s@, from as int),
        from <= r <= s@.len(),
{
    let n = s.unicode_len();
    let mut i: usize = from;
    while i < n
        invariant
            n == s@.len(),
            from <= i <= n,
            spec_line_end(s@, from as int) == spec_line_end(s@, i as int),
        decreases n - i,
    {
        if s.get_char(i) == '\n' {
            return i;
        }
        i += 1;
    }
    i
}

fn close_extent(s: &str, from: usize) -> (r: Option<usize>)
    requires
        from <= s@.len(),
    ensures
        match r {
            Some(u) => spec_close_extent(s@, from as int) == Some(u as int) && from <= u
                < s@.len(),
            None => spec_close_extent(s@, from as int) is None,
        },
{
    let n = s.unicode_len();
    let mut i: usize = from;
    while i < n
        invariant
            n == s@.len(),
            from <= i <= n,
            spec_close_extent(s@, from as int) == spec_close_extent(s@, i as int),
        decreases n - i,
    {
        proof {
            reveal_strlit("extent");
            assert("extent"@ =~= extent_kw());
        }
        if s.get_char(i) == ')' {
            let w = skip_ws(s, i + 1);
            if starts_with_at(s, "extent", w) {
                return Some(i);
            }
        }
        i += 1;
    }
    None
}

fn type_keyword_at(s: &str, p: usize) -> (r: bool)
    ensures
        r == is_type_keyword_at(s@, p as int),
{
    proof {
        reveal_strlit("serial");
        reveal_strlit("integer");
        reveal_strlit("varchar");
        reveal_strlit("char");
        reveal_strlit("date");
        reveal_strlit("datetime");
        reveal_strlit("decimal");
        reveal_strlit("blob");
        reveal_strlit("set");
        assert("serial"@ =~= seq!['s', 'e', 'r', 'i', 'a', 'l']);
        assert("integer"@ =~= seq!['i', 'n', 't', 'e', 'g', 'e', 'r']);
        assert("varchar"@ =~= seq!['v', 'a', 'r', 'c', 'h', 'a', 'r']);
        assert("char"@ =~= seq!['c', 'h', 'a', 'r']);
        assert("date"@ =~= seq!['d', 'a', 't', 'e']);
        assert("datetime"@ =~= seq!['d', 'a', 't', 'e', 't', 'i', 'm', 'e']);
        assert("decimal"@ =~= seq!['d', 'e', 'c', 'i', 'm', 'a', 'l']);
        assert("blob"@ =~= seq!['b', 'l', 'o', 'b']);
        assert("set"@ =~= seq!['s', 'e', 't']);
    }
    starts_with_at(s, "serial", p) || starts_with_at(s, "integer", p) || starts_with_at(
        s,
        "varchar",
        p,
    ) || starts_with_at(s, "char", p) || starts_with_at(s, "date", p) || starts_with_at(
        s,
        "datetime",
        p,
    ) || starts_with_at(s, "decimal", p) || starts_with_at(s, "blob", p) || starts_with_at(
        s,
        "set",
        p,
    )
}

/// The data-file name of one block, if its directive is present and well
/// formed.
fn block_unl(block: &str) -> (r: Option<String>)
    ensures
        match r {
            Some(u) => spec_block_unl(block@) == Some(u@),
            None => spec_block_unl(block@) is None,
        },
{
    proof {
        reveal_strlit("unload file name");
        assert("unload file name"@ =~= unl_marker());
        reveal_strlit(".unl");
        assert(".unl"@ =~= unl_suffix());
    }
    let n = block.unicode_len();
    match find_from(block, "unload file name", 0) {
        None => None,
        Some(p) => {
            proof {
                lemma_find_props(block@, "unload file name"@, 0);
            }
            let ml = "unload file name".unicode_len();
            let q = skip_ws(block, p + ml);
            if q < n && block.get_char(q) == '=' {
                let u = skip_ws(block, q + 1);
                let e = token_end(block, u);
                if e - u > 4 && starts_with_at(block, ".unl", e - 4) {
                    let tok = substring(block, u, e);
                    proof {
                        let tv = block@.subrange(u as int, e as int);
                        assert(tv.subrange(tv.len() - 4, tv.len() as int) =~= block@.subrange(
                            e - 4,
                            e as int,
                        ));
                    }
                    Some(tok)
                } else {
                    proof {
                        let tv = block@.subrange(u as int, e as int);
                        if e - u > 4 {
                            assert(tv.subrange(tv.len() - 4, tv.len() as int) =~= block@.subrange(
                                e - 4,
                                e as int,
                            ));
                        }
                    }
                    None
                }
            } else {
                None
            }
        },
    }
}

/// The table name and column section of one block's create-table statement.
fn block_create(block: &str) -> (r: Option<(String, String)>)
    ensures
        match r {
            Some(pair) => spec_block_create(block@) == Some((pair.0@, pair.1@)),
            None => spec_block_create(block@) is None,
        },
{
    proof {
        reveal_strlit("create table");
        assert("create table"@ =~= create_marker());
        reveal_strlit("\"informix\"");
        assert("\"informix\""@ =~= owner_marker());
    }
    let n = block.unicode_len();
    match find_from(block, "create table", 0) {
        None => None,
        Some(p) => {
            proof {
                lemma_find_props(block@, "create table"@, 0);
            }
            let ml = "create table".unicode_len();
            let q = skip_ws(block, p + ml);
            if starts_with_at(block, "\"informix\"", q) {
                let r0 = q + "\"informix\"".unicode_len();
                proof {
                    assert(r0 <= n);
                }
                let r1 = if r0 < n && block.get_char(r0) == '.' {
                    r0 + 1
                } else {
                    r0
                };
                let r2 = if r1 < n && block.get_char(r1) == '"' {
                    r1 + 1
                } else {
                    r1
                };
                let ne = name_end(block, r2);
                if ne > r2 {
                    let s0 = if ne < n && block.get_char(ne) == '"' {
                        ne + 1
                    } else {
                        ne
                    };
                    let s1 = skip_ws(block, s0);
                    if s1 < n && block.get_char(s1) == '(' {
                        match close_extent(block, s1 + 1) {
                            None => None,
                            Some(cp) => {
                                let name = substring(block, r2, ne);
                                let section = substring(block, s1 + 1, cp);
                                Some((name, section))
                            },
                        }
                    } else {
                        None
                    }
                } else {
                    None
                }
            } else {
                None
            }
        },
    }
}

/// The field name declared by one column line, if any.
fn field_line(line: &str) -> (r: Option<String>)
    ensures
        match r {
            Some(f) => spec_field_line(line@) == Some(f@),
            None => spec_field_line(line@) is None,
        },
{
    let n = line.unicode_len();
    let i0 = skip_ws(line, 0);
    let i1 = if i0 < n && line.get_char(i0) == '"' {
        i0 + 1
    } else {
        i0
    };
    let ie = ident_end(line, i1);
    if ie > i1 {
        let j0 = if ie < n && line.get_char(ie) == '"' {
            ie + 1
        } else {
            ie
        };
        let j1 = skip_ws(line, j0);
        if j1 > j0 && type_keyword_at(line, j1) {
            Some(substring(line, i1, ie))
        } else {
            None
        }
    } else {
        None
    }
}

/// The field names of a column section, one per recognized column line.
fn section_fields(section: &str) -> (r: Vec<String>)
    ensures
        r.deep_view() == spec_fields(section@, 0),
{
    let n = section.unicode_len();
    let mut out: Vec<String> = Vec::new();
    let mut pos: usize = 0;
    proof {
        assert(out.deep_view() =~~= Seq::<Seq<char>>::empty());
        assert(spec_fields(section@, 0) == out.deep_view() + spec_fields(section@, 0)) by {
            assert(out.deep_view() + spec_fields(section@, 0) =~= spec_fields(section@, 0));
        }
    }
    while pos < n
        invariant
            n == section@.len(),
            0 <= pos <= n,
            spec_fields(section@, 0) == out.deep_view() + spec_fields(section@, pos as int),
        decreases n + 1 - pos,
    {
        let le = line_end(section, pos);
        let line_s = substring(section, pos, le);
        let ghost line = section@.subrange(pos as int, le as int);
        let ghost pre = out.deep_view();
        let ghost rest = spec_fields(section@, le + 1);
        proof {
            assert(spec_fields(section@, pos as int) == match spec_field_line(line) {
                Some(f) => seq![f] + rest,
                None => rest,
            });
        }
        match field_line(line_s.as_str()) {
            Some(f) => {
                let ghost fv = f@;
                out.push(f);
                proof {
                    assert(out.deep_view() =~~= pre.push(fv));
                    assert(pre + (seq![fv] + rest) =~= (pre.push(fv)) + rest);
                }
            },
            None => {},
        }
        if le < n {
            pos = le + 1;
        } else {
            proof {
                assert(spec_fields(section@, le + 1) =~~= Seq::<Seq<char>>::empty());
                assert(spec_fields(section@, n as int) =~~= Seq::<Seq<char>>::empty());
            }
            pos = n;
        }
    }
    proof {
        assert(spec_fields(section@, pos as int) =~~= Seq::<Seq<char>>::empty());
        assert(out.deep_view() + Seq::<Seq<char>>::empty() =~= out.deep_view());
    }
    out
}

/// Parse a DDL text into the table catalog: one entry per block that carries
/// both a data-file directive and a create-table statement, keyed by table
/// name, fields in declaration order. A matched table without recognizable
/// columns, or a text without any usable table, is an error.
#[verifier::rlimit(80)]
pub fn parse_sql_file(sql: &str) -> (r: Result<TableCatalog, Error>)
    ensures
        match spec_scan(sql@, 0) {
            None => r is Err && r->Err_0 matches Error::Processing(_),
            Some(entries) => if entries.len() == 0 {
                r is Err && r->Err_0 matches Error::Processing(_)
            } else {
                r is Ok && r->Ok_0.wf() && catalog_matches(r->Ok_0, entries)
            },
        },
{
    proof {
        reveal_strlit("{ TABLE");
        assert("{ TABLE"@ =~= tbl_marker());
    }
    let n = sql.unicode_len();
    let marker_len = "{ TABLE".unicode_len();
    let mut catalog = TableCatalog::new();
    let ghost mut done: Seq<(Seq<char>, Seq<char>, Seq<Seq<char>>)> = Seq::empty();
    let mut pos: usize = 0;
    let mut scanning = true;
    proof {
        match spec_scan(sql@, 0) {
            None => {},
            Some(es) => {
                assert(done + es =~= es);
            },
        }
    }
    while scanning
        invariant
            n == sql@.len(),
            0 <= pos <= n,
            marker_len == tbl_marker().len(),
            "{ TABLE"@ == tbl_marker(),
            catalog.wf(),
            (done.len() == 0) <==> (catalog.entries@.len() == 0),
            catalog_matches(catalog, done),
            scanning ==> (match spec_scan(sql@, pos as int) {
                None => spec_scan(sql@, 0) is None,
                Some(es) => spec_scan(sql@, 0) == Some(done + es),
            }),
            !scanning ==> spec_scan(sql@, 0) == Some(done),
        decreases n - pos, (if scanning { 1int } else { 0int }),
    {
        match find_from(sql, "{ TABLE", pos) {
            None => {
                proof {
                    assert(spec_scan(sql@, pos as int) == Some(Seq::<(
                        Seq<char>,
                        Seq<char>,
                        Seq<Seq<char>>,
                    )>::empty()));
                    assert(done + Seq::<(Seq<char>, Seq<char>, Seq<Seq<char>>)>::empty() =~= done);
                }
                scanning = false;
            },
            Some(mk) => {
                proof {
                    lemma_find_props(sql@, "{ TABLE"@, pos as int);
                }
                let bstart = mk + marker_len;
                let bend = match find_from(sql, "{ TABLE", bstart) {
                    None => n,
                    Some(nx) => nx,
                };
                proof {
                    lemma_find_props(sql@, "{ TABLE"@, bstart as int);
                }
                let block = substring(sql, bstart, bend);
                let ghost rest_scan = spec_scan(sql@, bend as int);
                match block_unl(block.as_str()) {
                    None => {
                        proof {
                            assert(spec_scan(sql@, pos as int) == rest_scan);
                        }
                        pos = bend;
                    },
                    Some(unl) => {
                        match block_create(block.as_str()) {
                            None => {
                                proof {
                                    assert(spec_scan(sql@, pos as int) == rest_scan);
                                }
                                pos = bend;
                            },
                            Some(pair) => {
                                let (name, section) = pair;
                                let fields = section_fields(section.as_str());
                                let ghost entry = (name@, unl@, fields.deep_view());
                                if fields.len() == 0 {
                                    proof {
                                        assert(fields.deep_view().len() == 0);
                                        assert(spec_scan(sql@, pos as int) is None);
                                    }
                                    let mut msg = String::new();
                                    msg.append("No fields found in table ");
                                    msg.append(name.as_str());
                                    return Err(Error::Processing(msg));
                                }
                                proof {
                                    assert(fields.deep_view().len() > 0);
                                    assert(spec_scan(sql@, pos as int) == match rest_scan {
                                        None => None::<Seq<(Seq<char>, Seq<char>, Seq<Seq<char>>)>>,
                                        Some(es) => Some(seq![entry] + es),
                                    });
                                }
                                let ghost name_v = name@;
                                let ghost pre_cat = catalog;
                                let info = TableInfo { unl_file: unl, fields };
                                catalog.insert(name, info);
                                proof {
                                    lemma_catalog_matches_push(pre_cat, catalog, done, entry);
                                    done = done.push(entry);
                                    match rest_scan {
                                        None => {},
                                        Some(es) => {
                                            assert((done.drop_last() + (seq![entry] + es)) =~= (
                                            done + es));
                                            assert(done.drop_last() =~= done.subrange(
                                                0,
                                                done.len() - 1,
                                            ));
                                        },
                                    }
                                }
                                pos = bend;
                            },
                        }
                    },
                }
            },
        }
    }
    if catalog.is_empty() {
        return Err(Error::Processing("No valid tables found in SQL file".to_owned()));
    }
    Ok(catalog)
}

/// Inserting a parsed entry preserves the catalog-to-entries correspondence.
proof fn lemma_catalog_matches_push(
    pre: TableCatalog,
    post: TableCatalog,
    done: Seq<(Seq<char>, Seq<char>, Seq<Seq<char>>)>,
    entry: (Seq<char>, Seq<char>, Seq<Seq<char>>),
)
    requires
        catalog_matches(pre, done),
        post.wf(),
        post.has(entry.0),
        post.info_of(entry.0).unl_file@ == entry.1,
        post.info_of(entry.0).fields.deep_view() == entry.2,
        forall|other: Seq<char>|
            other != entry.0 ==> (#[trigger] post.has(other) == pre.has(other) && (post.has(other)
                ==> post.info_of(other) == pre.info_of(other))),
    ensures
        catalog_matches(post, done.push(entry)),
{
    let done2 = done.push(entry);
    assert forall|name: Seq<char>| #[trigger] post.has(name) implies exists|k: int|
        0 <= k < done2.len() && (#[trigger] done2[k]).0 == name by {
        if name == entry.0 {
            assert(done2[done.len() as int].0 == name);
        } else {
            assert(pre.has(name));
            let k = choose|k: int| 0 <= k < done.len() && (#[trigger] done[k]).0 == name;
            assert(done2[k].0 == name);
        }
    }
    assert forall|name: Seq<char>|
        (exists|k: int| 0 <= k < done2.len() && (#[trigger] done2[k]).0 == name) implies (
    #[trigger] post.has(name)) by {
        let k = choose|k: int| 0 <= k < done2.len() && (#[trigger] done2[k]).0 == name;
        if k == done.len() {
            assert(name == entry.0);
        } else {
            assert(done[k].0 == name);
            assert(pre.has(name));
        }
    }
    assert forall|k: int|
        0 <= k < done2.len() && is_last_occurrence(done2, k) implies {
        &&& post.has((#[trigger] done2[k]).0)
        &&& post.info_of(done2[k].0).unl_file@ == done2[k].1
        &&& post.info_of(done2[k].0).fields.deep_view() == done2[k].2
    } by {
        if k == done.len() {
            assert(done2[k] == entry);
        } else {
            assert(done2[k] == done[k]);
            assert(done2[k].0 != entry.0) by {
                assert(done2[done.len() as int].0 == entry.0);
            }
            assert(is_last_occurrence(done, k)) by {
                assert forall|k2: int|
                    k < k2 < done.len() implies (#[trigger] done[k2]).0 != done[k].0 by {
                    assert(done2[k2] == done[k2]);
                }
            }
            assert(pre.has(done[k].0));
            assert(post.has(done2[k].0));
            assert(post.info_of(done2[k].0) == pre.info_of(done[k].0));
        }
    }
}


/// Any table name that occurs in the entry list has a last occurrence.
proof fn lemma_last_occurrence_exists(
    entries: Seq<(Seq<char>, Seq<char>, Seq<Seq<char>>)>,
    name: Seq<char>,
)
    requires
        exists|k: int| 0 <= k < entries.len() && (#[trigger] entries[k]).0 == name,
    ensures
        exists|k: int|
            0 <= k < entries.len() && (#[trigger] entries[k]).0 == name && is_last_occurrence(
                entries,
                k,
            ),
    decreases entries.len(),
{
    let n = entries.len() as int;
    if entries[n - 1].0 == name {
        assert(is_last_occurrence(entries, n - 1));
    } else {
        let short = entries.drop_last();
        let k0 = choose|k: int| 0 <= k < entries.len() && (#[trigger] entries[k]).0 == name;
        assert(short[k0] == entries[k0]);
        lemma_last_occurrence_exists(short, name);
        let k = choose|k: int|
            0 <= k < short.len() && (#[trigger] short[k]).0 == name && is_last_occurrence(short, k);
        assert(entries[k] == short[k]);
        assert forall|k2: int| k < k2 < entries.len() implies (#[trigger] entries[k2]).0
            != entries[k].0 by {
            if k2 < n - 1 {
                assert(short[k2] == entries[k2]);
            }
        }
        assert(is_last_occurrence(entries, k));
    }
}

/// Schema extraction is deterministic: two catalogs parsed from equal DDL
/// texts hold the same tables, and for each table the same data-file name
/// and the same field names in the same order.
pub proof fn lemma_parse_deterministic(
    entries: Seq<(Seq<char>, Seq<char>, Seq<Seq<char>>)>,
    c1: TableCatalog,
    c2: TableCatalog,
)
    requires
        catalog_matches(c1, entries),
        catalog_matches(c2, entries),
    ensures
        forall|name: Seq<char>| #[trigger] c1.has(name) <==> c2.has(name),
        forall|name: Seq<char>|
            #[trigger] c1.has(name) ==> c1.info_of(name).unl_file@ == c2.info_of(name).unl_file@
                && c1.info_of(name).fields.deep_view() == c2.info_of(name).fields.deep_view(),
{
    assert forall|name: Seq<char>| #[trigger] c1.has(name) implies c1.info_of(name).unl_file@
        == c2.info_of(name).unl_file@ && c1.info_of(name).fields.deep_view() == c2.info_of(
        name,
    ).fields.deep_view() by {
        lemma_last_occurrence_exists(entries, name);
        let k = choose|k: int|
            0 <= k < entries.len() && (#[trigger] entries[k]).0 == name && is_last_occurrence(
                entries,
                k,
            );
        assert(c1.info_of(name).unl_file@ == entries[k].1);
        assert(c2.info_of(name).unl_file@ == entries[k].1);
        assert(c1.info_of(name).fields.deep_view() == entries[k].2);
        assert(c2.info_of(name).fields.deep_view() == entries[k].2);
    }
}

} // verus!
