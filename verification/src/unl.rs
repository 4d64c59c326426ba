//! The delimited-record codec and the rule engine.
//!
//! The codec turns one line of a data file into an ordered list of field
//! values and back. Lines use the trailing-delimiter convention: every
//! field, the last included, is followed by one `'|'`.
//!
//! The engine applies the scrub, standardize and combine rules to one row
//! at a time, resolving field names to column positions against the table
//! catalog.

use vstd::prelude::*;
use vstd::string::StrSliceExecFns;
use vstd::string::StringExecFns;

use crate::config::CombinationFieldConfig;
use crate::config::Config;
use crate::config::RandomNameConfig;
use crate::config::SourceField;
use crate::config::TableField;
use crate::engine_spec::combo_rule_ok;
use crate::engine_spec::combo_rule_rel;
use crate::engine_spec::combo_sources_rel;
use crate::engine_spec::combos_ok;
use crate::engine_spec::combos_rel;
use crate::engine_spec::lemma_combo_sources_snoc;
use crate::engine_spec::lemma_combos_snoc;
use crate::engine_spec::lemma_join_snoc;
use crate::engine_spec::lemma_scrub_fields_snoc;
use crate::engine_spec::lemma_scrub_rules_snoc;
use crate::engine_spec::lemma_std_targets_snoc;
use crate::engine_spec::line_processed;
use crate::engine_spec::process_row_ok;
use crate::engine_spec::process_row_rel;
use crate::engine_spec::scrub_fields_rel;
use crate::engine_spec::scrub_ok;
use crate::engine_spec::scrub_rule_ok;
use crate::engine_spec::scrub_rules_rel;
use crate::engine_spec::spec_join;
use crate::engine_spec::std_fn;
use crate::engine_spec::std_ok;
use crate::engine_spec::std_target_fn;
use crate::engine_spec::std_targets_fn;
use crate::engine_spec::std_targets_ok;
use crate::error::Error;
use crate::random::choose_word;
use crate::random::is_github_name;
use crate::schema::TableCatalog;
use crate::text::str_eq;
use crate::text::substring;

verus! {

/// No character of `f` is the field delimiter.
pub open spec fn delim_free(f: Seq<char>) -> bool {
    forall|j: int| 0 <= j < f.len() ==> f[j] != '|'
}

/// Split `s` on `'|'`; always yields at least one (possibly empty) field.
pub open spec fn spec_split(s: Seq<char>) -> Seq<Seq<char>>
    decreases s.len(),
{
    if s.len() == 0 {
        seq![Seq::<char>::empty()]
    } else if s[0] == '|' {
        seq![Seq::<char>::empty()] + spec_split(s.drop_first())
    } else {
        let rest = spec_split(s.drop_first());
        seq![seq![s[0]] + rest[0]] + rest.drop_first()
    }
}

/// One trailing `'|'` removed, if present.
pub open spec fn spec_strip(l: Seq<char>) -> Seq<char> {
    if l.len() > 0 && l.last() == '|' {
        l.drop_last()
    } else {
        l
    }
}

/// The field list a line decodes to.
pub open spec fn spec_decode(l: Seq<char>) -> Seq<Seq<char>> {
    spec_split(spec_strip(l))
}

/// Each field followed by one delimiter, concatenated.
pub open spec fn spec_encode(fs: Seq<Seq<char>>) -> Seq<char>
    decreases fs.len(),
{
    if fs.len() == 0 {
        Seq::<char>::empty()
    } else {
        fs[0] + seq!['|'] + spec_encode(fs.drop_first())
    }
}

/// The line a field list encodes to: the delimiter-joined fields with one
/// trailing delimiter (a single delimiter for an empty list).
pub open spec fn spec_encode_line(fs: Seq<Seq<char>>) -> Seq<char> {
    if fs.len() == 0 {
        seq!['|']
    } else {
        spec_encode(fs)
    }
}

pub proof fn lemma_split_len(s: Seq<char>)
    ensures
        spec_split(s).len() >= 1,
    decreases s.len(),
{
    if s.len() > 0 {
        lemma_split_len(s.drop_first());
    }
}

pub proof fn lemma_split_delim_free(s: Seq<char>)
    ensures
        forall|k: int| 0 <= k < spec_split(s).len() ==> delim_free(#[trigger] spec_split(s)[k]),
    decreases s.len(),
{
    if s.len() > 0 {
        lemma_split_delim_free(s.drop_first());
        lemma_split_len(s.drop_first());
    }
}

/// Splitting a delimiter-free string yields exactly that string.
pub proof fn lemma_split_whole(u: Seq<char>)
    requires
        delim_free(u),
    ensures
        spec_split(u) == seq![u],
    decreases u.len(),
{
    if u.len() == 0 {
        assert(spec_split(u) =~~= seq![u]);
    } else {
        assert(delim_free(u.drop_first()));
        lemma_split_whole(u.drop_first());
        assert(spec_split(u) =~~= seq![u]);
    }
}

/// Splitting at the first delimiter: `u` delimiter-free, so
/// `u + "|" + v` splits into `u` followed by the fields of `v`.
pub proof fn lemma_split_at_delim(u: Seq<char>, v: Seq<char>)
    requires
        delim_free(u),
    ensures
        spec_split(u + seq!['|'] + v) == seq![u] + spec_split(v),
    decreases u.len(),
{
    let s = u + seq!['|'] + v;
    if u.len() == 0 {
        assert(s[0] == '|');
        assert(s.drop_first() =~= v);
        assert(spec_split(s) =~~= seq![u] + spec_split(v));
    } else {
        assert(s[0] == u[0]);
        assert(s[0] != '|');
        assert(delim_free(u.drop_first()));
        lemma_split_at_delim(u.drop_first(), v);
        assert(s.drop_first() =~= u.drop_first() + seq!['|'] + v);
        let rest = spec_split(s.drop_first());
        assert(rest == seq![u.drop_first()] + spec_split(v));
        lemma_split_len(v);
        assert(rest[0] == u.drop_first());
        assert(rest.drop_first() =~= spec_split(v));
        assert(seq![s[0]] + rest[0] =~= u);
        assert(spec_split(s) =~~= seq![u] + spec_split(v));
    }
}

pub proof fn lemma_encode_ends_delim(fs: Seq<Seq<char>>)
    requires
        fs.len() >= 1,
    ensures
        spec_encode(fs).len() >= 1,
        spec_encode(fs).last() == '|',
    decreases fs.len(),
{
    if fs.len() == 1 {
        assert(spec_encode(fs.drop_first()) =~= Seq::<char>::empty());
    } else {
        lemma_encode_ends_delim(fs.drop_first());
    }
}

/// Encoding the fields of any string restores the string, with the one
/// trailing delimiter appended.
pub proof fn lemma_encode_split(s: Seq<char>)
    ensures
        spec_encode(spec_split(s)) == s + seq!['|'],
    decreases s.len(),
{
    if s.len() == 0 {
        let sp = spec_split(s);
        assert(sp =~~= seq![Seq::<char>::empty()]);
        assert(sp.drop_first() =~~= Seq::<Seq<char>>::empty());
        assert(spec_encode(sp.drop_first()) == Seq::<char>::empty());
        assert(spec_encode(sp) == sp[0] + seq!['|'] + spec_encode(sp.drop_first()));
        assert(spec_encode(sp) =~= s + seq!['|']);
    } else if s[0] == '|' {
        lemma_encode_split(s.drop_first());
        let sp = spec_split(s);
        assert(sp.drop_first() =~~= spec_split(s.drop_first()));
        assert(sp[0] =~= Seq::<char>::empty());
        assert(spec_encode(sp) == sp[0] + seq!['|'] + spec_encode(sp.drop_first()));
        assert(spec_encode(sp) =~= s + seq!['|']);
    } else {
        lemma_encode_split(s.drop_first());
        let rest = spec_split(s.drop_first());
        lemma_split_len(s.drop_first());
        let sp = spec_split(s);
        assert(sp[0] == seq![s[0]] + rest[0]);
        assert(sp.drop_first() =~~= rest.drop_first());
        if rest.len() == 1 {
            assert(spec_encode(rest.drop_first()) =~= Seq::<char>::empty());
            assert(spec_encode(rest) =~= rest[0] + seq!['|']);
        } else {
            assert(spec_encode(rest) == rest[0] + seq!['|'] + spec_encode(rest.drop_first()));
        }
        assert(spec_encode(sp) =~= seq![s[0]] + spec_encode(rest));
        assert(spec_encode(sp) =~= s + seq!['|']);
    }
}

/// Decoding an encoded field list restores the fields, provided no field
/// holds the delimiter. (A field that holds `'|'` is re-split on decode, and
/// a zero-field record is indistinguishable from one empty field.)
pub proof fn lemma_round_trip(fs: Seq<Seq<char>>)
    requires
        fs.len() >= 1,
        forall|k: int| 0 <= k < fs.len() ==> delim_free(#[trigger] fs[k]),
    ensures
        spec_decode(spec_encode_line(fs)) == fs,
    decreases fs.len(),
{
    lemma_encode_ends_delim(fs);
    let line = spec_encode(fs);
    assert(spec_strip(line) == line.drop_last());
    if fs.len() == 1 {
        assert(spec_encode(fs.drop_first()) =~= Seq::<char>::empty());
        assert(line =~= fs[0] + seq!['|']);
        assert(line.drop_last() =~= fs[0]);
        lemma_split_whole(fs[0]);
    } else {
        lemma_round_trip(fs.drop_first());
        lemma_encode_ends_delim(fs.drop_first());
        let tail = spec_encode(fs.drop_first());
        assert(line =~= fs[0] + seq!['|'] + tail);
        assert(line.drop_last() =~= fs[0] + seq!['|'] + tail.drop_last());
        lemma_split_at_delim(fs[0], tail.drop_last());
        assert(spec_strip(tail) == tail.drop_last());
        assert(spec_split(line.drop_last()) =~= fs);
    }
}

/// Encoding the decode of a delimiter-terminated line restores the line.
pub proof fn lemma_normalize(l: Seq<char>)
    requires
        l.len() >= 1,
        l.last() == '|',
    ensures
        spec_encode_line(spec_decode(l)) == l,
{
    lemma_split_len(spec_strip(l));
    lemma_encode_split(spec_strip(l));
    assert(spec_strip(l) + seq!['|'] =~= l);
}

/// One row of a data file: an ordered list of field values.
#[derive(Debug, PartialEq)]
pub struct UnlRow {
    fields: Vec<String>,
}

impl View for UnlRow {
    type V = Seq<Seq<char>>;

    closed spec fn view(&self) -> Seq<Seq<char>> {
        self.fields.deep_view()
    }
}

impl UnlRow {
    /// Every row decoded from a line has at least one field.
    pub open spec fn wf(&self) -> bool {
        self@.len() >= 1
    }

    pub fn num_fields(&self) -> (n: usize)
        ensures
            n == self@.len(),
    {
        self.fields.len()
    }

    pub fn get_field(&self, index: usize) -> (r: Option<&str>)
        ensures
            match r {
                Some(s) => index < self@.len() && s@ == self@[index as int],
                None => index >= self@.len(),
            },
    {
        if index < self.fields.len() {
            Some(self.fields[index].as_str())
        } else {
            None
        }
    }

    pub fn set_field(&mut self, index: usize, value: String) -> (r: Result<(), Error>)
        ensures
            final(self)@.len() == old(self)@.len(),
            index < old(self)@.len() ==> r is Ok && final(self)@ == old(self)@.update(
                index as int,
                value@,
            ),
            index >= old(self)@.len() ==> r is Err && *final(self) == *old(self) && r->Err_0 matches
                Error::Processing(_),
    {
        if index >= self.fields.len() {
            return Err(
                Error::Processing("field index out of bounds for this row".to_owned()),
            );
        }
        self.fields.set(index, value);
        proof {
            assert(self@ =~= old(self)@.update(index as int, value@));
        }
        Ok(())
    }

    /// Decode one line: strip one trailing delimiter if present, then split
    /// on the delimiter. Never fails.
    pub fn from_line(line: &str) -> (r: Result<UnlRow, Error>)
        ensures
            r is Ok,
            r->Ok_0@ == spec_decode(line@),
            r->Ok_0.wf(),
    {
        let n = line.unicode_len();
        let end: usize = if n > 0 && line.get_char(n - 1) == '|' {
            n - 1
        } else {
            n
        };
        let ghost s = spec_strip(line@);
        proof {
            assert(line@ =~= line@.subrange(0, n as int));
            if end < n {
                assert(line@.drop_last() =~= line@.subrange(0, end as int));
            }
            assert(s == line@.subrange(0, end as int));
        }
        let mut fields: Vec<String> = Vec::new();
        let mut start: usize = 0;
        let mut i: usize = 0;
        proof {
            assert(fields.deep_view() =~~= Seq::<Seq<char>>::empty());
            assert(s.subrange(0, end as int) =~= s);
            assert(spec_split(s) =~~= fields.deep_view() + spec_split(
                s.subrange(0, end as int),
            ));
        }
        while i < end
            invariant
                end <= n == line@.len(),
                s == spec_strip(line@),
                s == line@.subrange(0, end as int),
                0 <= start <= i <= end,
                forall|k: int| start <= k < i ==> s[k] != '|',
                spec_split(s) == fields.deep_view() + spec_split(
                    s.subrange(start as int, end as int),
                ),
            decreases end - i,
        {
            if line.get_char(i) == '|' {
                let f = substring(line, start, i);
                proof {
                    assert(f@ =~= s.subrange(start as int, i as int));
                    assert(delim_free(f@));
                    assert(s.subrange(start as int, end as int) =~= f@ + seq!['|'] + s.subrange(
                        i + 1,
                        end as int,
                    ));
                    lemma_split_at_delim(f@, s.subrange(i + 1, end as int));
                }
                let ghost old_fields = fields.deep_view();
                fields.push(f);
                proof {
                    assert(fields.deep_view() =~~= old_fields + seq![f@]);
                    assert(fields.deep_view() + spec_split(s.subrange(i + 1, end as int)) =~~=
                        old_fields + (seq![f@] + spec_split(s.subrange(i + 1, end as int))));
                }
                start = i + 1;
            }
            i += 1;
        }
        let f = substring(line, start, end);
        proof {
            assert(f@ =~= s.subrange(start as int, end as int));
            assert(delim_free(f@));
            lemma_split_whole(f@);
        }
        let ghost old_fields = fields.deep_view();
        fields.push(f);
        proof {
            assert(fields.deep_view() =~~= old_fields + seq![f@]);
            assert(fields.deep_view() =~~= spec_split(s));
            lemma_split_len(s);
        }
        Ok(UnlRow { fields })
    }

    /// Encode the row: the fields joined by the delimiter, with one trailing
    /// delimiter appended.
    pub fn to_line(&self) -> (r: String)
        ensures
            r@ == spec_encode_line(self@),
    {
        proof {
            reveal_strlit("|");
        }
        if self.fields.len() == 0 {
            let r = "|".to_owned();
            proof {
                assert(r@ =~= seq!['|']);
            }
            return r;
        }
        let mut out = String::new();
        let mut i: usize = 0;
        proof {
            assert(out@ =~= spec_encode(self@.subrange(0, 0)));
        }
        while i < self.fields.len()
            invariant
                self@.len() == self.fields.len(),
                0 <= i <= self.fields.len(),
                out@ == spec_encode(self@.subrange(0, i as int)),
            decreases self.fields.len() - i,
        {
            out.append(self.fields[i].as_str());
            out.append("|");
            proof {
                reveal_strlit("|");
                assert("|"@ =~= seq!['|']);
                lemma_encode_snoc(self@.subrange(0, i as int), self@[i as int]);
                assert(self@.subrange(0, i + 1) =~~= self@.subrange(0, i as int).push(
                    self@[i as int],
                ));
                assert(self.fields[i as int]@ == self@[i as int]);
                assert(out@ =~= spec_encode(self@.subrange(0, i + 1)));
            }
            i += 1;
        }
        proof {
            assert(self@.subrange(0, self@.len() as int) =~= self@);
        }
        out
    }
}

/// Position of `name` in a field list: the first index holding it.
pub open spec fn spec_field_index(fields: Seq<Seq<char>>, name: Seq<char>) -> Option<int>
    decreases fields.len(),
{
    if fields.len() == 0 {
        None
    } else if fields[0] == name {
        Some(0int)
    } else {
        match spec_field_index(fields.drop_first(), name) {
            Some(i) => Some(i + 1),
            None => None,
        }
    }
}

pub proof fn lemma_field_index_props(fields: Seq<Seq<char>>, name: Seq<char>)
    ensures
        match spec_field_index(fields, name) {
            Some(i) => 0 <= i < fields.len() && fields[i] == name && forall|j: int|
                0 <= j < i ==> fields[j] != name,
            None => forall|j: int| 0 <= j < fields.len() ==> fields[j] != name,
        },
    decreases fields.len(),
{
    if fields.len() > 0 && fields[0] != name {
        let rest = fields.drop_first();
        lemma_field_index_props(rest, name);
        match spec_field_index(rest, name) {
            Some(i) => {
                assert(fields[i + 1] == rest[i]);
                assert forall|j: int| 0 <= j < i + 1 implies fields[j] != name by {
                    if j > 0 {
                        assert(fields[j] == rest[j - 1]);
                    }
                }
            },
            None => {
                assert forall|j: int| 0 <= j < fields.len() implies fields[j] != name by {
                    if j > 0 {
                        assert(fields[j] == rest[j - 1]);
                    }
                }
            },
        }
    }
}

/// Position of `field_name` in `table_fields`, or `None` if absent.
pub fn find_field_index(field_name: &str, table_fields: &[String]) -> (r: Option<usize>)
    ensures
        match r {
            Some(u) => spec_field_index(table_fields.deep_view(), field_name@) == Some(u as int),
            None => spec_field_index(table_fields.deep_view(), field_name@) is None,
        },
{
    proof {
        lemma_field_index_props(table_fields.deep_view(), field_name@);
    }
    let n = table_fields.len();
    let mut i: usize = 0;
    while i < n
        invariant
            n == table_fields@.len(),
            table_fields.deep_view().len() == n,
            0 <= i <= n,
            forall|j: int| 0 <= j < i ==> table_fields.deep_view()[j] != field_name@,
            match spec_field_index(table_fields.deep_view(), field_name@) {
                Some(k) => 0 <= k < n && table_fields.deep_view()[k] == field_name@ && forall|
                    j: int,
                |
                    0 <= j < k ==> table_fields.deep_view()[j] != field_name@,
                None => forall|j: int|
                    0 <= j < n ==> table_fields.deep_view()[j] != field_name@,
            },
        decreases n - i,
    {
        if str_eq(table_fields[i].as_str(), field_name) {
            proof {
                assert(table_fields.deep_view()[i as int] == table_fields@[i as int]@);
            }
            return Some(i);
        }
        proof {
            assert(table_fields.deep_view()[i as int] == table_fields@[i as int]@);
        }
        i += 1;
    }
    None
}

/// Position of `field_name` in the schema of `table_name`; an unknown table
/// is an error, an unknown field is `None`.
pub fn find_field_index_by_table(
    table_name: &str,
    field_name: &str,
    table_info: &TableCatalog,
) -> (r: Result<Option<usize>, Error>)
    ensures
        r is Ok <==> table_info.has(table_name@),
        r is Ok ==> match r->Ok_0 {
            Some(u) => spec_field_index(table_info.fields_of(table_name@), field_name@) == Some(
                u as int,
            ),
            None => spec_field_index(table_info.fields_of(table_name@), field_name@) is None,
        },
        r is Err ==> r->Err_0 matches Error::Processing(_),
{
    match table_info.get(table_name) {
        Some(info) => {
            let fields = info.fields.as_slice();
            proof {
                assert(fields.deep_view() =~~= table_info.fields_of(table_name@));
            }
            Ok(find_field_index(field_name, fields))
        },
        None => {
            let mut msg = String::new();
            msg.append("Table '");
            msg.append(table_name);
            msg.append("' not found");
            Err(Error::Processing(msg))
        },
    }
}

/// The rule engine: applies the scrub, standardize and combine rules to one
/// row at a time, resolving field names against the table catalog.
pub struct UnlProcessor {
    pub config: Config,
    pub table_info: TableCatalog,
    pub adjectives: Vec<String>,
    pub nouns: Vec<String>,
}

impl UnlProcessor {
    /// The adjective list as character sequences.
    pub open spec fn adjs(&self) -> Seq<Seq<char>> {
        self.adjectives.deep_view()
    }

    /// The noun list as character sequences.
    pub open spec fn nons(&self) -> Seq<Seq<char>> {
        self.nouns.deep_view()
    }

    /// The field list of table `t` in the catalog, empty if unknown.
    pub open spec fn fs_of(&self, t: Seq<char>) -> Seq<Seq<char>> {
        self.table_info.fields_of(t)
    }

    pub fn new(
        config: Config,
        table_info: TableCatalog,
        adjectives: Vec<String>,
        nouns: Vec<String>,
    ) -> (r: Self)
        ensures
            r.config == config,
            r.table_info == table_info,
            r.adjectives == adjectives,
            r.nouns == nouns,
    {
        Self { config, table_info, adjectives, nouns }
    }

    /// A synthesized name in the given style. Only "github" is supported:
    /// an adjective and a noun drawn from the word lists, hyphen-joined.
    pub fn generate_random_name(&self, style: &str) -> (r: Result<String, Error>)
        ensures
            r is Ok <==> (style@ == "github"@ && self.adjs().len() > 0 && self.nons().len() > 0),
            r is Ok ==> is_github_name(self.adjs(), self.nons(), r->Ok_0@),
            r is Err ==> (if style@ == "github"@ {
                r->Err_0 matches Error::Processing(_)
            } else {
                r->Err_0 matches Error::Config(_)
            }),
    {
        if str_eq(style, "github") {
            match choose_word(self.adjectives.as_slice()) {
                None => Err(Error::Processing("No adjectives available".to_owned())),
                Some(adj) => {
                    let adj: String = adj.clone();
                    match choose_word(self.nouns.as_slice()) {
                        None => Err(Error::Processing("No nouns available".to_owned())),
                        Some(noun) => {
                            let ghost a = adj@;
                            let ghost n = noun@;
                            let mut out = adj;
                            out.append("-");
                            out.append(noun.as_str());
                            proof {
                                reveal_strlit("-");
                                assert(out@ =~= a + seq!['-'] + n);
                                let i = choose|i: int|
                                    0 <= i < self.adjectives@.len() && a == self.adjectives@[i]@;
                                let j = choose|j: int|
                                    0 <= j < self.nouns@.len() && n == self.nouns@[j]@;
                                assert(self.adjs()[i] == self.adjectives@[i]@);
                                assert(self.nons()[j] == self.nouns@[j]@);
                                assert(is_github_name(self.adjs(), self.nons(), out@));
                            }
                            Ok(out)
                        },
                    }
                },
            }
        } else {
            let mut msg = String::new();
            msg.append("Unsupported name style: ");
            msg.append(style);
            Err(Error::Config(msg))
        }
    }

    /// One standardize group: force each of its targets that names this
    /// table and resolves in the schema to the group's fixed value.
    fn apply_std_group(
        &self,
        targets: &Vec<TableField>,
        value: &String,
        table_name: &str,
        row: &mut UnlRow,
    ) -> (r: Result<(), Error>)
        ensures
            final(row)@.len() == old(row)@.len(),
            r is Ok <==> std_targets_ok(
                targets@,
                table_name@,
                self.table_info.has(table_name@),
                self.fs_of(table_name@),
                old(row)@.len() as nat,
            ),
            r is Ok ==> final(row)@ == std_targets_fn(
                targets@,
                value@,
                table_name@,
                self.fs_of(table_name@),
                old(row)@,
            ),
            r is Err ==> r->Err_0 matches Error::Processing(_),
    {
        let ghost t = table_name@;
        let ghost fs = self.fs_of(t);
        let ghost has_t = self.table_info.has(t);
        let ghost r_init = row@;
        let n = targets.len();
        let mut i: usize = 0;
        proof {
            assert(targets@.take(0) =~= Seq::<TableField>::empty());
        }
        while i < n
            invariant
                n == targets@.len(),
                0 <= i <= n,
                t == table_name@,
                fs == self.fs_of(t),
                has_t == self.table_info.has(t),
                r_init == old(row)@,
                row@.len() == r_init.len(),
                row@ == std_targets_fn(targets@.take(i as int), value@, t, fs, r_init),
                std_targets_ok(targets@.take(i as int), t, has_t, fs, r_init.len() as nat),
            decreases n - i,
        {
            let ghost row_pre = row@;
            let ghost prefix = targets@.take(i as int);
            proof {
                assert(targets@.take(i + 1) =~= prefix.push(targets@[i as int]));
                lemma_std_targets_snoc(prefix, targets@[i as int], value@, t, fs, r_init);
            }
            let tf = &targets[i];
            if str_eq(tf.table.as_str(), table_name) {
                match find_field_index_by_table(table_name, tf.field.as_str(), &self.table_info) {
                    Err(e) => {
                        proof {
                            assert(!has_t);
                            assert(!std_targets_ok(targets@, t, has_t, fs, r_init.len() as nat))
                                by {
                                if std_targets_ok(targets@, t, has_t, fs, r_init.len() as nat) {
                                    assert((targets@[i as int]).table@ == t);
                                }
                            }
                        }
                        return Err(e);
                    },
                    Ok(opt) => {
                        match opt {
                            Some(idx) => {
                                match row.set_field(idx, value.clone()) {
                                    Ok(()) => {
                                        proof {
                                            assert(std_target_fn(targets@[i as int], value@, t, fs, row_pre)
                                                == row_pre.update(idx as int, value@));
                                            assert(row@ == std_targets_fn(
                                                targets@.take(i + 1),
                                                value@,
                                                t,
                                                fs,
                                                r_init,
                                            ));
                                            assert forall|k: int|
                                                0 <= k < i + 1 && (#[trigger] targets@.take(i + 1)[k]).table@
                                                    == t implies has_t && match spec_field_index(
                                                fs,
                                                targets@.take(i + 1)[k].field@,
                                            ) {
                                                Some(ix) => ix < r_init.len(),
                                                None => true,
                                            } by {
                                                if k < i {
                                                    assert(prefix[k] == targets@.take(i + 1)[k]);
                                                }
                                            }
                                        }
                                    },
                                    Err(e) => {
                                        proof {
                                            assert(!std_targets_ok(
                                                targets@,
                                                t,
                                                has_t,
                                                fs,
                                                r_init.len() as nat,
                                            )) by {
                                                if std_targets_ok(
                                                    targets@,
                                                    t,
                                                    has_t,
                                                    fs,
                                                    r_init.len() as nat,
                                                ) {
                                                    assert((targets@[i as int]).table@ == t);
                                                }
                                            }
                                        }
                                        return Err(e);
                                    },
                                }
                            },
                            None => {
                                proof {
                                    assert(std_target_fn(targets@[i as int], value@, t, fs, row_pre)
                                        == row_pre);
                                    assert(row@ == std_targets_fn(
                                        targets@.take(i + 1),
                                        value@,
                                        t,
                                        fs,
                                        r_init,
                                    ));
                                    assert forall|k: int|
                                        0 <= k < i + 1 && (#[trigger] targets@.take(i + 1)[k]).table@
                                            == t implies has_t && match spec_field_index(
                                        fs,
                                        targets@.take(i + 1)[k].field@,
                                    ) {
                                        Some(ix) => ix < r_init.len(),
                                        None => true,
                                    } by {
                                        if k < i {
                                            assert(prefix[k] == targets@.take(i + 1)[k]);
                                        }
                                    }
                                }
                            },
                        }
                    },
                }
            } else {
                proof {
                    assert(std_target_fn(targets@[i as int], value@, t, fs, row_pre) == row_pre);
                    assert(row@ == std_targets_fn(targets@.take(i + 1), value@, t, fs, r_init));
                    assert forall|k: int|
                        0 <= k < i + 1 && (#[trigger] targets@.take(i + 1)[k]).table@
                            == t implies has_t && match spec_field_index(
                        fs,
                        targets@.take(i + 1)[k].field@,
                    ) {
                        Some(ix) => ix < r_init.len(),
                        None => true,
                    } by {
                        if k < i {
                            assert(prefix[k] == targets@.take(i + 1)[k]);
                        } else {
                            assert(targets@.take(i + 1)[k] == targets@[i as int]);
                        }
                    }
                }
            }
            i += 1;
        }
        proof {
            assert(targets@.take(n as int) =~= targets@);
        }
        Ok(())
    }

    /// The standardize stage: the address, phone and email groups applied in
    /// that fixed order.
    pub fn apply_standardization(&self, table_name: &str, row: &mut UnlRow) -> (r: Result<
        (),
        Error,
    >)
        ensures
            final(row)@.len() == old(row)@.len(),
            r is Ok <==> std_ok(
                self.config.standardize,
                table_name@,
                self.table_info.has(table_name@),
                self.fs_of(table_name@),
                old(row)@.len() as nat,
            ),
            r is Ok ==> final(row)@ == std_fn(
                self.config.standardize,
                table_name@,
                self.fs_of(table_name@),
                old(row)@,
            ),
            r is Err ==> r->Err_0 matches Error::Processing(_),
    {
        match self.apply_std_group(
            &self.config.standardize.address.fields,
            &self.config.standardize.address.value,
            table_name,
            row,
        ) {
            Err(e) => {
                return Err(e);
            },
            Ok(()) => {},
        }
        match self.apply_std_group(
            &self.config.standardize.phone.fields,
            &self.config.standardize.phone.value,
            table_name,
            row,
        ) {
            Err(e) => {
                return Err(e);
            },
            Ok(()) => {},
        }
        match self.apply_std_group(
            &self.config.standardize.email.fields,
            &self.config.standardize.email.value,
            table_name,
            row,
        ) {
            Err(e) => {
                return Err(e);
            },
            Ok(()) => {},
        }
        Ok(())
    }

    /// The combine stage: for each combination rule of this table, join the
    /// collected source values with the rule's separator and write the
    /// result to the target field.
    #[verifier::loop_isolation(false)]
    pub fn apply_combinations(&self, table_name: &str, row: &mut UnlRow) -> (r: Result<(), Error>)
        ensures
            final(row)@.len() == old(row)@.len(),
            r is Ok <==> combos_ok(
                self.config.combination_fields@,
                table_name@,
                self.table_info.has(table_name@),
                self.fs_of(table_name@),
                self.adjs(),
                self.nons(),
                old(row)@.len() as nat,
            ),
            r is Ok ==> combos_rel(
                self.config.combination_fields@,
                table_name@,
                self.fs_of(table_name@),
                self.adjs(),
                self.nons(),
                old(row)@,
                final(row)@,
            ),
            r is Err ==> (r->Err_0 matches Error::Processing(_) || r->Err_0 matches Error::Config(
                _,
            )),
    {
        let ghost t = table_name@;
        let ghost fs = self.fs_of(t);
        let ghost has_t = self.table_info.has(t);
        let ghost adjs = self.adjs();
        let ghost nouns = self.nons();
        let ghost r_init = row@;
        let ghost cs = self.config.combination_fields@;
        let ghost nn = r_init.len() as nat;
        let n = self.config.combination_fields.len();
        let mut i: usize = 0;
        proof {
            assert(cs.take(0) =~= Seq::<CombinationFieldConfig>::empty());
            assert(combos_rel(cs.take(0), t, fs, adjs, nouns, r_init, row@));
        }
        while i < n
            invariant
                0 <= i <= n,
                row@.len() == r_init.len(),
                combos_rel(cs.take(i as int), t, fs, adjs, nouns, r_init, row@),
                combos_ok(cs.take(i as int), t, has_t, fs, adjs, nouns, nn),
            decreases n - i,
        {
            let ghost row_pre = row@;
            let ghost prefix = cs.take(i as int);
            let ghost cur = cs[i as int];
            proof {
                assert(cs.take(i + 1) =~= prefix.push(cur));
            }
            let c = &self.config.combination_fields[i];
            if str_eq(c.table.as_str(), table_name) {
                let mut values: Vec<String> = Vec::new();
                let m = c.fields.len();
                let mut j: usize = 0;
                proof {
                    assert(values.deep_view() =~~= Seq::<Seq<char>>::empty());
                    assert(c.fields@.take(0) =~= Seq::<SourceField>::empty());
                    assert(combo_sources_rel(
                        c.fields@.take(0),
                        fs,
                        adjs,
                        nouns,
                        row_pre,
                        values.deep_view(),
                    ));
                }
                while j < m
                    invariant
                        0 <= j <= m,
                        combo_sources_rel(
                            c.fields@.take(j as int),
                            fs,
                            adjs,
                            nouns,
                            row_pre,
                            values.deep_view(),
                        ),
                        forall|jj: int|
                            0 <= jj < j ==> match spec_field_index(
                                fs,
                                (#[trigger] c.fields@[jj]).source_field@,
                            ) {
                                Some(idx) => if c.fields@[jj].random_style@.len() == 0 {
                                    idx < nn
                                } else {
                                    c.fields@[jj].random_style@ == "github"@ && adjs.len() > 0
                                        && nouns.len() > 0
                                },
                                None => true,
                            },
                    decreases m - j,
                {
                    let ghost vals_pre = values.deep_view();
                    let ghost src_prefix = c.fields@.take(j as int);
                    let ghost src_cur = c.fields@[j as int];
                    proof {
                        assert(c.fields@.take(j + 1) =~= src_prefix.push(src_cur));
                    }
                    let src = &c.fields[j];
                    match find_field_index_by_table(
                        table_name,
                        src.source_field.as_str(),
                        &self.table_info,
                    ) {
                        Err(e) => {
                            proof {
                                assert(!combos_ok(cs, t, has_t, fs, adjs, nouns, nn)) by {
                                    if combos_ok(cs, t, has_t, fs, adjs, nouns, nn) {
                                        assert(combo_rule_ok(cs[i as int], t, has_t, fs, adjs, nouns, nn));
                                    }
                                }
                            }
                            return Err(e);
                        },
                        Ok(opt) => {
                            match opt {
                                None => {
                                    proof {
                                        lemma_combo_sources_snoc(
                                            src_prefix,
                                            src_cur,
                                            fs,
                                            adjs,
                                            nouns,
                                            row_pre,
                                            vals_pre,
                                            vals_pre,
                                        );
                                    }
                                },
                                Some(idx) => {
                                    if src.random_style.as_str().is_empty() {
                                        match row.get_field(idx) {
                                            None => {
                                                proof {
                                                    assert(!combos_ok(cs, t, has_t, fs, adjs, nouns, nn))
                                                        by {
                                                        if combos_ok(cs, t, has_t, fs, adjs, nouns, nn) {
                                                            assert(combo_rule_ok(
                                                                cs[i as int],
                                                                t,
                                                                has_t,
                                                                fs,
                                                                adjs,
                                                                nouns,
                                                                nn,
                                                            ));
                                                            assert(cs[i as int].fields@[j as int]
                                                                == src_cur);
                                                        }
                                                    }
                                                }
                                                return Err(
                                                    Error::Processing(
                                                        "Field index out of bounds".to_owned(),
                                                    ),
                                                );
                                            },
                                            Some(s) => {
                                                let v = s.to_owned();
                                                values.push(v);
                                                proof {
                                                    assert(values.deep_view() =~~= vals_pre.push(
                                                        row_pre[idx as int],
                                                    ));
                                                    assert(exists|w: Seq<char>|
                                                        values.deep_view() == vals_pre.push(w) && (
                                                        if src_cur.random_style@.len() == 0 {
                                                            w == row_pre[idx as int]
                                                        } else {
                                                            is_github_name(adjs, nouns, w)
                                                        }));
                                                    lemma_combo_sources_snoc(
                                                        src_prefix,
                                                        src_cur,
                                                        fs,
                                                        adjs,
                                                        nouns,
                                                        row_pre,
                                                        vals_pre,
                                                        values.deep_view(),
                                                    );
                                                }
                                            },
                                        }
                                    } else {
                                        match self.generate_random_name(src.random_style.as_str()) {
                                            Err(e) => {
                                                proof {
                                                    assert(!combos_ok(cs, t, has_t, fs, adjs, nouns, nn))
                                                        by {
                                                        if combos_ok(cs, t, has_t, fs, adjs, nouns, nn) {
                                                            assert(combo_rule_ok(
                                                                cs[i as int],
                                                                t,
                                                                has_t,
                                                                fs,
                                                                adjs,
                                                                nouns,
                                                                nn,
                                                            ));
                                                            assert(cs[i as int].fields@[j as int]
                                                                == src_cur);
                                                        }
                                                    }
                                                }
                                                return Err(e);
                                            },
                                            Ok(name) => {
                                                let ghost name_v = name@;
                                                values.push(name);
                                                proof {
                                                    assert(values.deep_view() =~~= vals_pre.push(
                                                        name_v,
                                                    ));
                                                    assert(exists|w: Seq<char>|
                                                        values.deep_view() == vals_pre.push(w) && (
                                                        if src_cur.random_style@.len() == 0 {
                                                            w == row_pre[idx as int]
                                                        } else {
                                                            is_github_name(adjs, nouns, w)
                                                        }));
                                                    lemma_combo_sources_snoc(
                                                        src_prefix,
                                                        src_cur,
                                                        fs,
                                                        adjs,
                                                        nouns,
                                                        row_pre,
                                                        vals_pre,
                                                        values.deep_view(),
                                                    );
                                                }
                                            },
                                        }
                                    }
                                },
                            }
                        },
                    }
                    j += 1;
                }
                proof {
                    assert(c.fields@.take(m as int) =~= c.fields@);
                }
                match find_field_index_by_table(
                    table_name,
                    c.target_field.as_str(),
                    &self.table_info,
                ) {
                    Err(e) => {
                        proof {
                            assert(!combos_ok(cs, t, has_t, fs, adjs, nouns, nn)) by {
                                if combos_ok(cs, t, has_t, fs, adjs, nouns, nn) {
                                    assert(combo_rule_ok(cs[i as int], t, has_t, fs, adjs, nouns, nn));
                                }
                            }
                        }
                        return Err(e);
                    },
                    Ok(opt) => {
                        match opt {
                            None => {
                                proof {
                                    assert(combo_sources_rel(
                                        cur.fields@,
                                        fs,
                                        adjs,
                                        nouns,
                                        row_pre,
                                        values.deep_view(),
                                    ));
                                    assert(combo_rule_rel(cur, t, fs, adjs, nouns, row_pre, row@));
                                    lemma_combos_snoc(
                                        prefix,
                                        cur,
                                        t,
                                        fs,
                                        adjs,
                                        nouns,
                                        r_init,
                                        row_pre,
                                        row@,
                                    );
                                    assert forall|ii: int|
                                        0 <= ii < i + 1 implies combo_rule_ok(
                                        #[trigger] cs.take(i + 1)[ii],
                                        t,
                                        has_t,
                                        fs,
                                        adjs,
                                        nouns,
                                        nn,
                                    ) by {
                                        if ii < i {
                                            assert(cs.take(i + 1)[ii] == prefix[ii]);
                                            assert(combo_rule_ok(prefix[ii], t, has_t, fs, adjs, nouns, nn));
                                        } else {
                                            assert(cs.take(i + 1)[ii] == cur);
                                        }
                                    }
                                }
                            },
                            Some(ti) => {
                                let joined = join_values(&values, &c.separator);
                                match row.set_field(ti, joined) {
                                    Err(e) => {
                                        proof {
                                            assert(!combos_ok(cs, t, has_t, fs, adjs, nouns, nn)) by {
                                                if combos_ok(cs, t, has_t, fs, adjs, nouns, nn) {
                                                    assert(combo_rule_ok(
                                                        cs[i as int],
                                                        t,
                                                        has_t,
                                                        fs,
                                                        adjs,
                                                        nouns,
                                                        nn,
                                                    ));
                                                }
                                            }
                                        }
                                        return Err(e);
                                    },
                                    Ok(()) => {
                                        proof {
                                            assert(combo_sources_rel(
                                                cur.fields@,
                                                fs,
                                                adjs,
                                                nouns,
                                                row_pre,
                                                values.deep_view(),
                                            ));
                                            assert(row@ == row_pre.update(
                                                ti as int,
                                                spec_join(values.deep_view(), cur.separator@),
                                            ));
                                            assert(combo_rule_rel(cur, t, fs, adjs, nouns, row_pre, row@));
                                            lemma_combos_snoc(
                                                prefix,
                                                cur,
                                                t,
                                                fs,
                                                adjs,
                                                nouns,
                                                r_init,
                                                row_pre,
                                                row@,
                                            );
                                            assert forall|ii: int|
                                                0 <= ii < i + 1 implies combo_rule_ok(
                                                #[trigger] cs.take(i + 1)[ii],
                                                t,
                                                has_t,
                                                fs,
                                                adjs,
                                                nouns,
                                                nn,
                                            ) by {
                                                if ii < i {
                                                    assert(cs.take(i + 1)[ii] == prefix[ii]);
                                                    assert(combo_rule_ok(
                                                        prefix[ii],
                                                        t,
                                                        has_t,
                                                        fs,
                                                        adjs,
                                                        nouns,
                                                        nn,
                                                    ));
                                                } else {
                                                    assert(cs.take(i + 1)[ii] == cur);
                                                }
                                            }
                                        }
                                    },
                                }
                            },
                        }
                    },
                }
            } else {
                proof {
                    assert(combo_rule_rel(cur, t, fs, adjs, nouns, row_pre, row@));
                    lemma_combos_snoc(prefix, cur, t, fs, adjs, nouns, r_init, row_pre, row@);
                    assert forall|ii: int|
                        0 <= ii < i + 1 implies combo_rule_ok(
                        #[trigger] cs.take(i + 1)[ii],
                        t,
                        has_t,
                        fs,
                        adjs,
                        nouns,
                        nn,
                    ) by {
                        if ii < i {
                            assert(cs.take(i + 1)[ii] == prefix[ii]);
                            assert(combo_rule_ok(prefix[ii], t, has_t, fs, adjs, nouns, nn));
                        } else {
                            assert(cs.take(i + 1)[ii] == cur);
                        }
                    }
                }
            }
            i += 1;
        }
        proof {
            assert(cs.take(n as int) =~= cs);
        }
        Ok(())
    }

    /// Apply all rules to one row, in the fixed order scrub, standardize,
    /// combine. Later stages read what earlier stages wrote. The row's field
    /// count never changes; success is deterministic (`process_row_ok`),
    /// only the synthesized values are not.
    #[verifier::loop_isolation(false)]
    pub fn process_row(&self, table_name: &str, row: &mut UnlRow) -> (r: Result<(), Error>)
        ensures
            final(row)@.len() == old(row)@.len(),
            r is Ok <==> process_row_ok(
                self.config,
                table_name@,
                self.table_info.has(table_name@),
                self.fs_of(table_name@),
                self.adjs(),
                self.nons(),
                old(row)@.len() as nat,
            ),
            r is Ok ==> process_row_rel(
                self.config,
                table_name@,
                self.fs_of(table_name@),
                self.adjs(),
                self.nons(),
                old(row)@,
                final(row)@,
            ),
            r is Err ==> (r->Err_0 matches Error::Processing(_) || r->Err_0 matches Error::Config(
                _,
            )),
    {
        let ghost t = table_name@;
        let ghost fs = self.fs_of(t);
        let ghost has_t = self.table_info.has(t);
        let ghost adjs = self.adjs();
        let ghost nouns = self.nons();
        let ghost r_init = row@;
        let ghost rules = self.config.scrubbing.random_names@;
        let ghost nn = r_init.len() as nat;
        let n = self.config.scrubbing.random_names.len();
        let mut i: usize = 0;
        proof {
            assert(rules.take(0) =~= Seq::<RandomNameConfig>::empty());
            assert(scrub_rules_rel(rules.take(0), t, fs, adjs, nouns, r_init, row@));
        }
        while i < n
            invariant
                0 <= i <= n,
                row@.len() == r_init.len(),
                scrub_rules_rel(rules.take(i as int), t, fs, adjs, nouns, r_init, row@),
                forall|ii: int|
                    0 <= ii < i ==> scrub_rule_ok(
                        #[trigger] rules[ii],
                        t,
                        has_t,
                        fs,
                        adjs,
                        nouns,
                        nn,
                    ),
            decreases n - i,
        {
            let ghost rule_start = row@;
            let ghost prefix = rules.take(i as int);
            let ghost cur = rules[i as int];
            proof {
                assert(rules.take(i + 1) =~= prefix.push(cur));
            }
            let rule = &self.config.scrubbing.random_names[i];
            if str_eq(rule.table.as_str(), table_name) {
                let m = rule.fields.len();
                let mut j: usize = 0;
                proof {
                    assert(cur.fields.deep_view().take(0) =~~= Seq::<Seq<char>>::empty());
                    assert(scrub_fields_rel(
                        cur.fields.deep_view().take(0),
                        fs,
                        adjs,
                        nouns,
                        rule_start,
                        row@,
                    ));
                }
                while j < m
                    invariant
                        0 <= j <= m,
                        j > 0 ==> has_t,
                        row@.len() == r_init.len(),
                        scrub_fields_rel(
                            cur.fields.deep_view().take(j as int),
                            fs,
                            adjs,
                            nouns,
                            rule_start,
                            row@,
                        ),
                        forall|jj: int|
                            0 <= jj < j ==> match spec_field_index(
                                fs,
                                (#[trigger] cur.fields@[jj])@,
                            ) {
                                Some(idx) => cur.style@ == "github"@ && adjs.len() > 0
                                    && nouns.len() > 0 && idx < nn,
                                None => true,
                            },
                    decreases m - j,
                {
                    let ghost row_pre = row@;
                    let ghost name_prefix = cur.fields.deep_view().take(j as int);
                    let ghost name_cur = cur.fields.deep_view()[j as int];
                    proof {
                        assert(cur.fields.deep_view().take(j + 1) =~~= name_prefix.push(name_cur));
                        assert(name_cur == cur.fields@[j as int]@);
                    }
                    let field = &rule.fields[j];
                    proof {
                        assert(field@ == name_cur);
                    }
                    match find_field_index_by_table(
                        table_name,
                        field.as_str(),
                        &self.table_info,
                    ) {
                        Err(e) => {
                            proof {
                                assert(!scrub_ok(rules, t, has_t, fs, adjs, nouns, nn)) by {
                                    if scrub_ok(rules, t, has_t, fs, adjs, nouns, nn) {
                                        assert(scrub_rule_ok(rules[i as int], t, has_t, fs, adjs, nouns, nn));
                                        assert(cur.fields@.len() > 0);
                                    }
                                }
                            }
                            return Err(e);
                        },
                        Ok(opt) => {
                            match opt {
                                None => {
                                    proof {
                                        lemma_scrub_fields_snoc(
                                            name_prefix,
                                            name_cur,
                                            fs,
                                            adjs,
                                            nouns,
                                            rule_start,
                                            row_pre,
                                            row@,
                                        );
                                    }
                                },
                                Some(idx) => {
                                    match self.generate_random_name(rule.style.as_str()) {
                                        Err(e) => {
                                            proof {
                                                assert(!scrub_ok(rules, t, has_t, fs, adjs, nouns, nn))
                                                    by {
                                                    if scrub_ok(rules, t, has_t, fs, adjs, nouns, nn) {
                                                        assert(scrub_rule_ok(
                                                            rules[i as int],
                                                            t,
                                                            has_t,
                                                            fs,
                                                            adjs,
                                                            nouns,
                                                            nn,
                                                        ));
                                                        assert(cur.fields@[j as int] == rule.fields@[j as int]);
                                                    }
                                                }
                                            }
                                            return Err(e);
                                        },
                                        Ok(name) => {
                                            let ghost name_v = name@;
                                            match row.set_field(idx, name) {
                                                Err(e) => {
                                                    proof {
                                                        assert(!scrub_ok(rules, t, has_t, fs, adjs, nouns, nn))
                                                            by {
                                                            if scrub_ok(rules, t, has_t, fs, adjs, nouns, nn) {
                                                                assert(scrub_rule_ok(
                                                                    rules[i as int],
                                                                    t,
                                                                    has_t,
                                                                    fs,
                                                                    adjs,
                                                                    nouns,
                                                                    nn,
                                                                ));
                                                                assert(cur.fields@[j as int] == rule.fields@[j
                                                                    as int]);
                                                            }
                                                        }
                                                    }
                                                    return Err(e);
                                                },
                                                Ok(()) => {
                                                    proof {
                                                        assert(row@ == row_pre.update(idx as int, name_v));
                                                        assert(exists|v: Seq<char>|
                                                            is_github_name(adjs, nouns, v) && row@
                                                                == row_pre.update(idx as int, v));
                                                        lemma_scrub_fields_snoc(
                                                            name_prefix,
                                                            name_cur,
                                                            fs,
                                                            adjs,
                                                            nouns,
                                                            rule_start,
                                                            row_pre,
                                                            row@,
                                                        );
                                                    }
                                                },
                                            }
                                        },
                                    }
                                },
                            }
                        },
                    }
                    j += 1;
                }
                proof {
                    assert(cur.fields.deep_view().take(m as int) =~~= cur.fields.deep_view());
                    assert(scrub_fields_rel(cur.fields.deep_view(), fs, adjs, nouns, rule_start, row@));
                    lemma_scrub_rules_snoc(
                        prefix,
                        cur,
                        t,
                        fs,
                        adjs,
                        nouns,
                        r_init,
                        rule_start,
                        row@,
                    );
                    assert(scrub_rule_ok(cur, t, has_t, fs, adjs, nouns, nn));
                }
            } else {
                proof {
                    lemma_scrub_rules_snoc(
                        prefix,
                        cur,
                        t,
                        fs,
                        adjs,
                        nouns,
                        r_init,
                        rule_start,
                        row@,
                    );
                    assert(scrub_rule_ok(cur, t, has_t, fs, adjs, nouns, nn));
                }
            }
            i += 1;
        }
        proof {
            assert(rules.take(n as int) =~= rules);
        }
        let ghost scrubbed = row@;
        match self.apply_standardization(table_name, row) {
            Err(e) => {
                return Err(e);
            },
            Ok(()) => {},
        }
        let ghost standardized = row@;
        proof {
            assert(standardized == std_fn(self.config.standardize, t, fs, scrubbed));
        }
        match self.apply_combinations(table_name, row) {
            Err(e) => {
                return Err(e);
            },
            Ok(()) => {},
        }
        proof {
            assert(scrub_rules_rel(rules, t, fs, adjs, nouns, r_init, scrubbed));
            assert(combos_rel(
                self.config.combination_fields@,
                t,
                fs,
                adjs,
                nouns,
                std_fn(self.config.standardize, t, fs, scrubbed),
                row@,
            ));
            assert(process_row_rel(self.config, t, fs, adjs, nouns, r_init, row@));
        }
        Ok(())
    }

    /// One table's worth of data lines, each decoded, taken through the rule
    /// pipeline, and re-encoded. Output lines correspond to input lines one
    /// to one, in order.
    #[verifier::loop_isolation(false)]
    pub fn process_lines(&self, table_name: &str, lines: &Vec<String>) -> (r: Result<
        Vec<String>,
        Error,
    >)
        ensures
            r is Ok <==> forall|i: int|
                0 <= i < lines@.len() ==> process_row_ok(
                    self.config,
                    table_name@,
                    self.table_info.has(table_name@),
                    self.fs_of(table_name@),
                    self.adjs(),
                    self.nons(),
                    spec_decode((#[trigger] lines@[i])@).len() as nat,
                ),
            r is Ok ==> r->Ok_0@.len() == lines@.len(),
            r is Ok ==> forall|i: int|
                0 <= i < lines@.len() ==> line_processed(
                    self.config,
                    table_name@,
                    self.fs_of(table_name@),
                    self.adjs(),
                    self.nons(),
                    (#[trigger] lines@[i])@,
                    r->Ok_0@[i]@,
                ),
            r is Err ==> (r->Err_0 matches Error::Processing(_) || r->Err_0 matches Error::Config(
                _,
            )),
    {
        let ghost t = table_name@;
        let ghost fs = self.fs_of(t);
        let ghost has_t = self.table_info.has(t);
        let ghost adjs = self.adjs();
        let ghost nouns = self.nons();
        let mut out: Vec<String> = Vec::new();
        let n = lines.len();
        let mut i: usize = 0;
        while i < n
            invariant
                0 <= i <= n,
                out@.len() == i,
                forall|k: int|
                    0 <= k < i ==> process_row_ok(
                        self.config,
                        t,
                        has_t,
                        fs,
                        adjs,
                        nouns,
                        spec_decode((#[trigger] lines@[k])@).len() as nat,
                    ),
                forall|k: int|
                    0 <= k < i ==> line_processed(
                        self.config,
                        t,
                        fs,
                        adjs,
                        nouns,
                        (#[trigger] lines@[k])@,
                        out@[k]@,
                    ),
            decreases n - i,
        {
            let line = &lines[i];
            let mut row = match UnlRow::from_line(line.as_str()) {
                Ok(row) => row,
                Err(e) => {
                    return Err(e);
                },
            };
            let ghost decoded = row@;
            match self.process_row(table_name, &mut row) {
                Err(e) => {
                    proof {
                        assert(!process_row_ok(
                            self.config,
                            t,
                            has_t,
                            fs,
                            adjs,
                            nouns,
                            spec_decode(lines@[i as int]@).len() as nat,
                        ));
                    }
                    return Err(e);
                },
                Ok(()) => {},
            }
            let encoded = row.to_line();
            proof {
                assert(process_row_rel(self.config, t, fs, adjs, nouns, decoded, row@));
                assert(encoded@ == crate::unl::spec_encode_line(row@));
                assert(line_processed(self.config, t, fs, adjs, nouns, lines@[i as int]@, encoded@));
            }
            out.push(encoded);
            i += 1;
        }
        Ok(out)
    }
}

/// The source values joined with the separator between them.
fn join_values(values: &Vec<String>, separator: &String) -> (r: String)
    ensures
        r@ == spec_join(values.deep_view(), separator@),
{
    let mut out = String::new();
    let mut k: usize = 0;
    proof {
        assert(values.deep_view().take(0) =~~= Seq::<Seq<char>>::empty());
        assert(out@ =~= spec_join(values.deep_view().take(0), separator@));
    }
    while k < values.len()
        invariant
            0 <= k <= values@.len(),
            values.deep_view().len() == values@.len(),
            out@ == spec_join(values.deep_view().take(k as int), separator@),
        decreases values@.len() - k,
    {
        if k > 0 {
            out.append(separator.as_str());
        }
        out.append(values[k].as_str());
        proof {
            let dv = values.deep_view();
            assert(dv.take(k + 1) =~~= dv.take(k as int).push(dv[k as int]));
            lemma_join_snoc(dv.take(k as int), dv[k as int], separator@);
            assert(dv[k as int] == values@[k as int]@);
            assert(out@ =~= spec_join(dv.take(k + 1), separator@));
        }
        k += 1;
    }
    proof {
        assert(values.deep_view().take(values@.len() as int) =~~= values.deep_view());
    }
    out
}

/// Appending one field to an encoding appends the field and a delimiter.
pub proof fn lemma_encode_snoc(fs: Seq<Seq<char>>, f: Seq<char>)
    ensures
        spec_encode(fs.push(f)) == spec_encode(fs) + f + seq!['|'],
    decreases fs.len(),
{
    if fs.len() == 0 {
        assert(fs.push(f)[0] == f);
        assert(fs.push(f).drop_first() =~~= Seq::<Seq<char>>::empty());
        assert(spec_encode(fs.push(f)) == fs.push(f)[0] + seq!['|'] + spec_encode(
            fs.push(f).drop_first(),
        ));
        assert(spec_encode(fs.push(f)) =~= spec_encode(fs) + f + seq!['|']);
    } else {
        lemma_encode_snoc(fs.drop_first(), f);
        assert(fs.push(f).drop_first() =~~= fs.drop_first().push(f));
        assert(fs.push(f)[0] == fs[0]);
        assert(spec_encode(fs.push(f)) == fs.push(f)[0] + seq!['|'] + spec_encode(
            fs.push(f).drop_first(),
        ));
        assert(spec_encode(fs.drop_first().push(f)) == spec_encode(fs.drop_first()) + f + seq![
            '|',
        ]);
        assert(spec_encode(fs.push(f)) =~= spec_encode(fs) + f + seq!['|']);
    }
}

} // verus!
