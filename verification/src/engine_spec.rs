//! The meaning of the three rule stages — scrub, standardize, combine — as
//! relations and functions on a row model (`Seq<Seq<char>>`). Scrubbed and
//! synthesized values are random, so those stages are relations with the
//! chosen name existentially quantified; standardization is a function.
//!
//! Whether a stage succeeds is deterministic: it depends only on the rule
//! set, the schema, the word-list lengths and the row's field count, never
//! on the field values. The `*_ok` predicates say exactly when.

use vstd::prelude::*;

use crate::config::CombinationFieldConfig;
use crate::config::Config;
use crate::config::RandomNameConfig;
use crate::config::SourceField;
use crate::config::StandardizeConfig;
use crate::config::TableField;
use crate::random::is_github_name;
use crate::unl::spec_decode;
use crate::unl::spec_encode_line;
use crate::unl::spec_field_index;

verus! {

// ---------------------------------------------------------------------------
// Scrub: overwrite each resolvable listed field with a synthesized name.
// ---------------------------------------------------------------------------
/// `r1` is `r0` with the resolvable fields of `names` overwritten, in order,
/// each with some synthesized name.
pub open spec fn scrub_fields_rel(
    names: Seq<Seq<char>>,
    fs: Seq<Seq<char>>,
    adjs: Seq<Seq<char>>,
    nouns: Seq<Seq<char>>,
    r0: Seq<Seq<char>>,
    r1: Seq<Seq<char>>,
) -> bool
    decreases names.len(),
{
    if names.len() == 0 {
        r1 == r0
    } else {
        match spec_field_index(fs, names[0]) {
            None => scrub_fields_rel(names.drop_first(), fs, adjs, nouns, r0, r1),
            Some(idx) => exists|v: Seq<char>|
                is_github_name(adjs, nouns, v) && scrub_fields_rel(
                    names.drop_first(),
                    fs,
                    adjs,
                    nouns,
                    r0.update(idx, v),
                    r1,
                ),
        }
    }
}

/// `r1` is `r0` taken through every scrub rule whose table matches `t`.
pub open spec fn scrub_rules_rel(
    rules: Seq<RandomNameConfig>,
    t: Seq<char>,
    fs: Seq<Seq<char>>,
    adjs: Seq<Seq<char>>,
    nouns: Seq<Seq<char>>,
    r0: Seq<Seq<char>>,
    r1: Seq<Seq<char>>,
) -> bool
    decreases rules.len(),
{
    if rules.len() == 0 {
        r1 == r0
    } else if rules[0].table@ == t {
        exists|w: Seq<Seq<char>>|
            #[trigger] scrub_fields_rel(rules[0].fields.deep_view(), fs, adjs, nouns, r0, w)
                && scrub_rules_rel(rules.drop_first(), t, fs, adjs, nouns, w, r1)
    } else {
        scrub_rules_rel(rules.drop_first(), t, fs, adjs, nouns, r0, r1)
    }
}

/// One scrub rule applies without error: if it matches the table, the table
/// is known (when it lists any field), and every field that resolves does so
/// to a position inside the row, with a supported style and non-empty word
/// lists.
pub open spec fn scrub_rule_ok(
    rule: RandomNameConfig,
    t: Seq<char>,
    has_t: bool,
    fs: Seq<Seq<char>>,
    adjs: Seq<Seq<char>>,
    nouns: Seq<Seq<char>>,
    n: nat,
) -> bool {
    rule.table@ == t ==> {
        &&& (rule.fields@.len() > 0 ==> has_t)
        &&& forall|j: int|
            0 <= j < rule.fields@.len() ==> match spec_field_index(
                fs,
                (#[trigger] rule.fields@[j])@,
            ) {
                Some(idx) => rule.style@ == "github"@ && adjs.len() > 0 && nouns.len() > 0 && idx
                    < n,
                None => true,
            }
    }
}

pub open spec fn scrub_ok(
    rules: Seq<RandomNameConfig>,
    t: Seq<char>,
    has_t: bool,
    fs: Seq<Seq<char>>,
    adjs: Seq<Seq<char>>,
    nouns: Seq<Seq<char>>,
    n: nat,
) -> bool {
    forall|i: int|
        0 <= i < rules.len() ==> scrub_rule_ok(#[trigger] rules[i], t, has_t, fs, adjs, nouns, n)
}

// ---------------------------------------------------------------------------
// Standardize: force each resolvable target to the group's fixed value.
// ---------------------------------------------------------------------------
/// One target applied: the resolved position overwritten with `value`, the
/// row unchanged when the target names another table or an unknown field.
pub open spec fn std_target_fn(
    tf: TableField,
    value: Seq<char>,
    t: Seq<char>,
    fs: Seq<Seq<char>>,
    r: Seq<Seq<char>>,
) -> Seq<Seq<char>> {
    if tf.table@ == t {
        match spec_field_index(fs, tf.field@) {
            Some(idx) => r.update(idx, value),
            None => r,
        }
    } else {
        r
    }
}

pub open spec fn std_targets_fn(
    targets: Seq<TableField>,
    value: Seq<char>,
    t: Seq<char>,
    fs: Seq<Seq<char>>,
    r: Seq<Seq<char>>,
) -> Seq<Seq<char>>
    decreases targets.len(),
{
    if targets.len() == 0 {
        r
    } else {
        std_targets_fn(
            targets.drop_first(),
            value,
            t,
            fs,
            std_target_fn(targets[0], value, t, fs, r),
        )
    }
}

/// All three standardize groups applied, in their fixed order: address,
/// then phone, then email.
pub open spec fn std_fn(
    std: StandardizeConfig,
    t: Seq<char>,
    fs: Seq<Seq<char>>,
    r: Seq<Seq<char>>,
) -> Seq<Seq<char>> {
    std_targets_fn(
        std.email.fields@,
        std.email.value@,
        t,
        fs,
        std_targets_fn(
            std.phone.fields@,
            std.phone.value@,
            t,
            fs,
            std_targets_fn(std.address.fields@, std.address.value@, t, fs, r),
        ),
    )
}

pub open spec fn std_targets_ok(
    targets: Seq<TableField>,
    t: Seq<char>,
    has_t: bool,
    fs: Seq<Seq<char>>,
    n: nat,
) -> bool {
    forall|i: int|
        0 <= i < targets.len() && (#[trigger] targets[i]).table@ == t ==> (has_t
            && match spec_field_index(fs, targets[i].field@) {
            Some(idx) => idx < n,
            None => true,
        })
}

pub open spec fn std_ok(
    std: StandardizeConfig,
    t: Seq<char>,
    has_t: bool,
    fs: Seq<Seq<char>>,
    n: nat,
) -> bool {
    &&& std_targets_ok(std.address.fields@, t, has_t, fs, n)
    &&& std_targets_ok(std.phone.fields@, t, has_t, fs, n)
    &&& std_targets_ok(std.email.fields@, t, has_t, fs, n)
}

// ---------------------------------------------------------------------------
// Combine: join source values and write the result to the target field.
// ---------------------------------------------------------------------------
/// `vals` are the collected source values, in order: the row's current value
/// for a plain source, a synthesized name for a styled one; unresolvable
/// sources contribute nothing.
pub open spec fn combo_sources_rel(
    srcs: Seq<SourceField>,
    fs: Seq<Seq<char>>,
    adjs: Seq<Seq<char>>,
    nouns: Seq<Seq<char>>,
    r: Seq<Seq<char>>,
    vals: Seq<Seq<char>>,
) -> bool
    decreases srcs.len(),
{
    if srcs.len() == 0 {
        vals.len() == 0
    } else {
        match spec_field_index(fs, srcs[0].source_field@) {
            None => combo_sources_rel(srcs.drop_first(), fs, adjs, nouns, r, vals),
            Some(idx) => vals.len() >= 1 && (if srcs[0].random_style@.len() == 0 {
                vals[0] == r[idx]
            } else {
                is_github_name(adjs, nouns, vals[0])
            }) && combo_sources_rel(srcs.drop_first(), fs, adjs, nouns, r, vals.drop_first()),
        }
    }
}

/// The values joined with `sep` between them.
pub open spec fn spec_join(vals: Seq<Seq<char>>, sep: Seq<char>) -> Seq<char>
    decreases vals.len(),
{
    if vals.len() == 0 {
        Seq::empty()
    } else if vals.len() == 1 {
        vals[0]
    } else {
        vals[0] + sep + spec_join(vals.drop_first(), sep)
    }
}

/// One combination rule applied: for a matching table, the joined source
/// values written to the resolved target, the row unchanged when the target
/// does not resolve.
pub open spec fn combo_rule_rel(
    c: CombinationFieldConfig,
    t: Seq<char>,
    fs: Seq<Seq<char>>,
    adjs: Seq<Seq<char>>,
    nouns: Seq<Seq<char>>,
    r0: Seq<Seq<char>>,
    r1: Seq<Seq<char>>,
) -> bool {
    if c.table@ == t {
        exists|vals: Seq<Seq<char>>|
            #[trigger] combo_sources_rel(c.fields@, fs, adjs, nouns, r0, vals)
                && match spec_field_index(
                fs,
                c.target_field@,
            ) {
                Some(ti) => r1 == r0.update(ti, spec_join(vals, c.separator@)),
                None => r1 == r0,
            }
    } else {
        r1 == r0
    }
}

pub open spec fn combos_rel(
    cs: Seq<CombinationFieldConfig>,
    t: Seq<char>,
    fs: Seq<Seq<char>>,
    adjs: Seq<Seq<char>>,
    nouns: Seq<Seq<char>>,
    r0: Seq<Seq<char>>,
    r1: Seq<Seq<char>>,
) -> bool
    decreases cs.len(),
{
    if cs.len() == 0 {
        r1 == r0
    } else {
        exists|w: Seq<Seq<char>>|
            #[trigger] combo_rule_rel(cs[0], t, fs, adjs, nouns, r0, w) && combos_rel(
                cs.drop_first(),
                t,
                fs,
                adjs,
                nouns,
                w,
                r1,
            )
    }
}

pub open spec fn combo_rule_ok(
    c: CombinationFieldConfig,
    t: Seq<char>,
    has_t: bool,
    fs: Seq<Seq<char>>,
    adjs: Seq<Seq<char>>,
    nouns: Seq<Seq<char>>,
    n: nat,
) -> bool {
    c.table@ == t ==> {
        &&& has_t
        &&& forall|j: int|
            0 <= j < c.fields@.len() ==> match spec_field_index(
                fs,
                (#[trigger] c.fields@[j]).source_field@,
            ) {
                Some(idx) => if c.fields@[j].random_style@.len() == 0 {
                    idx < n
                } else {
                    c.fields@[j].random_style@ == "github"@ && adjs.len() > 0 && nouns.len() > 0
                },
                None => true,
            }
        &&& match spec_field_index(fs, c.target_field@) {
            Some(ti) => ti < n,
            None => true,
        }
    }
}

pub open spec fn combos_ok(
    cs: Seq<CombinationFieldConfig>,
    t: Seq<char>,
    has_t: bool,
    fs: Seq<Seq<char>>,
    adjs: Seq<Seq<char>>,
    nouns: Seq<Seq<char>>,
    n: nat,
) -> bool {
    forall|i: int|
        0 <= i < cs.len() ==> combo_rule_ok(#[trigger] cs[i], t, has_t, fs, adjs, nouns, n)
}

// ---------------------------------------------------------------------------
// The whole per-record pipeline: scrub, then standardize, then combine.
// ---------------------------------------------------------------------------
/// Every rule of the whole pipeline applies to a record of `n` fields
/// without error.
pub open spec fn process_row_ok(
    cfg: Config,
    t: Seq<char>,
    has_t: bool,
    fs: Seq<Seq<char>>,
    adjs: Seq<Seq<char>>,
    nouns: Seq<Seq<char>>,
    n: nat,
) -> bool {
    &&& scrub_ok(cfg.scrubbing.random_names@, t, has_t, fs, adjs, nouns, n)
    &&& std_ok(cfg.standardize, t, has_t, fs, n)
    &&& combos_ok(cfg.combination_fields@, t, has_t, fs, adjs, nouns, n)
}

/// `r1` is `r0` taken through the three stages in their fixed order: the
/// combine stage reads the standardized row, which reads the scrubbed row.
pub open spec fn process_row_rel(
    cfg: Config,
    t: Seq<char>,
    fs: Seq<Seq<char>>,
    adjs: Seq<Seq<char>>,
    nouns: Seq<Seq<char>>,
    r0: Seq<Seq<char>>,
    r1: Seq<Seq<char>>,
) -> bool {
    exists|w: Seq<Seq<char>>|
        #[trigger] scrub_rules_rel(cfg.scrubbing.random_names@, t, fs, adjs, nouns, r0, w)
            && combos_rel(
            cfg.combination_fields@,
            t,
            fs,
            adjs,
            nouns,
            std_fn(cfg.standardize, t, fs, w),
            r1,
        )
}

/// One data line taken through decode, the rule pipeline, and encode.
pub open spec fn line_processed(
    cfg: Config,
    t: Seq<char>,
    fs: Seq<Seq<char>>,
    adjs: Seq<Seq<char>>,
    nouns: Seq<Seq<char>>,
    input: Seq<char>,
    output: Seq<char>,
) -> bool {
    exists|r1: Seq<Seq<char>>|
        #[trigger] process_row_rel(cfg, t, fs, adjs, nouns, spec_decode(input), r1) && output
            == spec_encode_line(r1)
}

// ---------------------------------------------------------------------------
// Induction lemmas: extending a processed prefix by one element.
// ---------------------------------------------------------------------------
pub proof fn lemma_scrub_fields_snoc(
    names: Seq<Seq<char>>,
    x: Seq<char>,
    fs: Seq<Seq<char>>,
    adjs: Seq<Seq<char>>,
    nouns: Seq<Seq<char>>,
    r0: Seq<Seq<char>>,
    mid: Seq<Seq<char>>,
    r1: Seq<Seq<char>>,
)
    requires
        scrub_fields_rel(names, fs, adjs, nouns, r0, mid),
        match spec_field_index(fs, x) {
            Some(idx) => exists|v: Seq<char>|
                is_github_name(adjs, nouns, v) && r1 == mid.update(idx, v),
            None => r1 == mid,
        },
    ensures
        scrub_fields_rel(names.push(x), fs, adjs, nouns, r0, r1),
    decreases names.len(),
{
    if names.len() == 0 {
        assert(mid == r0);
        assert(names.push(x)[0] == x);
        assert(names.push(x).drop_first() =~~= Seq::<Seq<char>>::empty());
        match spec_field_index(fs, x) {
            Some(idx) => {
                let v = choose|v: Seq<char>|
                    is_github_name(adjs, nouns, v) && r1 == mid.update(idx, v);
                assert(scrub_fields_rel(
                    names.push(x).drop_first(),
                    fs,
                    adjs,
                    nouns,
                    r0.update(idx, v),
                    r1,
                ));
            },
            None => {
                assert(scrub_fields_rel(names.push(x).drop_first(), fs, adjs, nouns, r0, r1));
            },
        }
    } else {
        assert(names.push(x)[0] == names[0]);
        assert(names.push(x).drop_first() =~~= names.drop_first().push(x));
        match spec_field_index(fs, names[0]) {
            None => {
                lemma_scrub_fields_snoc(names.drop_first(), x, fs, adjs, nouns, r0, mid, r1);
                assert(scrub_fields_rel(names.push(x).drop_first(), fs, adjs, nouns, r0, r1));
            },
            Some(idx) => {
                let v = choose|v: Seq<char>|
                    is_github_name(adjs, nouns, v) && scrub_fields_rel(
                        names.drop_first(),
                        fs,
                        adjs,
                        nouns,
                        r0.update(idx, v),
                        mid,
                    );
                lemma_scrub_fields_snoc(
                    names.drop_first(),
                    x,
                    fs,
                    adjs,
                    nouns,
                    r0.update(idx, v),
                    mid,
                    r1,
                );
                assert(is_github_name(adjs, nouns, v) && scrub_fields_rel(
                    names.push(x).drop_first(),
                    fs,
                    adjs,
                    nouns,
                    r0.update(idx, v),
                    r1,
                ));
            },
        }
    }
}

pub proof fn lemma_scrub_rules_snoc(
    rules: Seq<RandomNameConfig>,
    x: RandomNameConfig,
    t: Seq<char>,
    fs: Seq<Seq<char>>,
    adjs: Seq<Seq<char>>,
    nouns: Seq<Seq<char>>,
    r0: Seq<Seq<char>>,
    mid: Seq<Seq<char>>,
    r1: Seq<Seq<char>>,
)
    requires
        scrub_rules_rel(rules, t, fs, adjs, nouns, r0, mid),
        x.table@ == t ==> scrub_fields_rel(x.fields.deep_view(), fs, adjs, nouns, mid, r1),
        x.table@ != t ==> r1 == mid,
    ensures
        scrub_rules_rel(rules.push(x), t, fs, adjs, nouns, r0, r1),
    decreases rules.len(),
{
    if rules.len() == 0 {
        assert(mid == r0);
        assert(rules.push(x)[0] == x);
        assert(rules.push(x).drop_first() =~= Seq::<RandomNameConfig>::empty());
        if x.table@ == t {
            assert(scrub_fields_rel(rules.push(x)[0].fields.deep_view(), fs, adjs, nouns, r0, r1));
            assert(scrub_rules_rel(rules.push(x).drop_first(), t, fs, adjs, nouns, r1, r1));
        } else {
            assert(scrub_rules_rel(rules.push(x).drop_first(), t, fs, adjs, nouns, r0, r1));
        }
    } else {
        assert(rules.push(x).drop_first() =~= rules.drop_first().push(x));
        assert(rules.push(x)[0] == rules[0]);
        if rules[0].table@ == t {
            reveal_with_fuel(scrub_rules_rel, 2);
            assert(exists|w: Seq<Seq<char>>|
                #[trigger] scrub_fields_rel(rules[0].fields.deep_view(), fs, adjs, nouns, r0, w)
                    && scrub_rules_rel(rules.drop_first(), t, fs, adjs, nouns, w, mid));
            let m = choose|w: Seq<Seq<char>>|
                #[trigger] scrub_fields_rel(rules[0].fields.deep_view(), fs, adjs, nouns, r0, w)
                    && scrub_rules_rel(rules.drop_first(), t, fs, adjs, nouns, w, mid);
            lemma_scrub_rules_snoc(rules.drop_first(), x, t, fs, adjs, nouns, m, mid, r1);
            assert(scrub_fields_rel(rules.push(x)[0].fields.deep_view(), fs, adjs, nouns, r0, m));
            assert(scrub_rules_rel(rules.push(x).drop_first(), t, fs, adjs, nouns, m, r1));
        } else {
            lemma_scrub_rules_snoc(rules.drop_first(), x, t, fs, adjs, nouns, r0, mid, r1);
            assert(scrub_rules_rel(rules.push(x).drop_first(), t, fs, adjs, nouns, r0, r1));
        }
    }
}

pub proof fn lemma_std_targets_snoc(
    targets: Seq<TableField>,
    x: TableField,
    value: Seq<char>,
    t: Seq<char>,
    fs: Seq<Seq<char>>,
    r: Seq<Seq<char>>,
)
    ensures
        std_targets_fn(targets.push(x), value, t, fs, r) == std_target_fn(
            x,
            value,
            t,
            fs,
            std_targets_fn(targets, value, t, fs, r),
        ),
    decreases targets.len(),
{
    if targets.len() == 0 {
        assert(targets.push(x)[0] == x);
        assert(targets.push(x).drop_first() =~= Seq::<TableField>::empty());
        assert(std_targets_fn(targets.push(x).drop_first(), value, t, fs, std_target_fn(
            x,
            value,
            t,
            fs,
            r,
        )) == std_target_fn(x, value, t, fs, r));
    } else {
        assert(targets.push(x).drop_first() =~= targets.drop_first().push(x));
        assert(targets.push(x)[0] == targets[0]);
        lemma_std_targets_snoc(
            targets.drop_first(),
            x,
            value,
            t,
            fs,
            std_target_fn(targets[0], value, t, fs, r),
        );
        assert(std_targets_fn(targets.push(x), value, t, fs, r) == std_targets_fn(
            targets.push(x).drop_first(),
            value,
            t,
            fs,
            std_target_fn(targets[0], value, t, fs, r),
        ));
    }
}

pub proof fn lemma_join_snoc(vals: Seq<Seq<char>>, x: Seq<char>, sep: Seq<char>)
    ensures
        spec_join(vals.push(x), sep) == if vals.len() == 0 {
            x
        } else {
            spec_join(vals, sep) + sep + x
        },
    decreases vals.len(),
{
    if vals.len() == 0 {
        assert(vals.push(x)[0] == x);
        assert(spec_join(vals.push(x), sep) == x);
    } else if vals.len() == 1 {
        assert(vals.push(x).drop_first() =~~= vals.drop_first().push(x));
        assert(vals.push(x)[0] == vals[0]);
        assert(vals.drop_first().push(x) =~~= seq![x]);
        assert(spec_join(vals.push(x).drop_first(), sep) == x);
        assert(spec_join(vals.push(x), sep) == vals[0] + sep + x);
        assert(spec_join(vals, sep) == vals[0]);
    } else {
        assert(vals.push(x).drop_first() =~~= vals.drop_first().push(x));
        assert(vals.push(x)[0] == vals[0]);
        lemma_join_snoc(vals.drop_first(), x, sep);
        assert(spec_join(vals.push(x), sep) == vals[0] + sep + spec_join(
            vals.drop_first().push(x),
            sep,
        ));
        assert(spec_join(vals.drop_first().push(x), sep) == spec_join(vals.drop_first(), sep) + sep
            + x);
        assert(vals[0] + sep + (spec_join(vals.drop_first(), sep) + sep + x) =~= (vals[0] + sep
            + spec_join(vals.drop_first(), sep)) + sep + x);
    }
}

pub proof fn lemma_combo_sources_snoc(
    srcs: Seq<SourceField>,
    x: SourceField,
    fs: Seq<Seq<char>>,
    adjs: Seq<Seq<char>>,
    nouns: Seq<Seq<char>>,
    r: Seq<Seq<char>>,
    vals: Seq<Seq<char>>,
    vals2: Seq<Seq<char>>,
)
    requires
        combo_sources_rel(srcs, fs, adjs, nouns, r, vals),
        match spec_field_index(fs, x.source_field@) {
            None => vals2 == vals,
            Some(idx) => exists|v: Seq<char>|
                vals2 == vals.push(v) && (if x.random_style@.len() == 0 {
                    v == r[idx]
                } else {
                    is_github_name(adjs, nouns, v)
                }),
        },
    ensures
        combo_sources_rel(srcs.push(x), fs, adjs, nouns, r, vals2),
    decreases srcs.len(),
{
    if srcs.len() == 0 {
        assert(vals.len() == 0);
        assert(srcs.push(x)[0] == x);
        assert(srcs.push(x).drop_first() =~= Seq::<SourceField>::empty());
        match spec_field_index(fs, x.source_field@) {
            None => {
                assert(combo_sources_rel(srcs.push(x).drop_first(), fs, adjs, nouns, r, vals2));
            },
            Some(idx) => {
                let v = choose|v: Seq<char>|
                    vals2 == vals.push(v) && (if x.random_style@.len() == 0 {
                        v == r[idx]
                    } else {
                        is_github_name(adjs, nouns, v)
                    });
                assert(vals2[0] == v);
                assert(vals2.drop_first() =~~= Seq::<Seq<char>>::empty());
                assert(combo_sources_rel(
                    srcs.push(x).drop_first(),
                    fs,
                    adjs,
                    nouns,
                    r,
                    vals2.drop_first(),
                ));
            },
        }
    } else {
        assert(srcs.push(x).drop_first() =~= srcs.drop_first().push(x));
        assert(srcs.push(x)[0] == srcs[0]);
        match spec_field_index(fs, srcs[0].source_field@) {
            None => {
                lemma_combo_sources_snoc(srcs.drop_first(), x, fs, adjs, nouns, r, vals, vals2);
                assert(combo_sources_rel(srcs.push(x).drop_first(), fs, adjs, nouns, r, vals2));
            },
            Some(idx0) => {
                match spec_field_index(fs, x.source_field@) {
                    None => {
                        lemma_combo_sources_snoc(
                            srcs.drop_first(),
                            x,
                            fs,
                            adjs,
                            nouns,
                            r,
                            vals.drop_first(),
                            vals2.drop_first(),
                        );
                        assert(vals2[0] == vals[0]);
                        assert(combo_sources_rel(
                            srcs.push(x).drop_first(),
                            fs,
                            adjs,
                            nouns,
                            r,
                            vals2.drop_first(),
                        ));
                    },
                    Some(idx) => {
                        let v = choose|v: Seq<char>|
                            vals2 == vals.push(v) && (if x.random_style@.len() == 0 {
                                v == r[idx]
                            } else {
                                is_github_name(adjs, nouns, v)
                            });
                        assert(vals2.drop_first() =~~= vals.drop_first().push(v));
                        assert(exists|w: Seq<char>|
                            vals2.drop_first() == vals.drop_first().push(w) && (
                            if x.random_style@.len() == 0 {
                                w == r[idx]
                            } else {
                                is_github_name(adjs, nouns, w)
                            }));
                        lemma_combo_sources_snoc(
                            srcs.drop_first(),
                            x,
                            fs,
                            adjs,
                            nouns,
                            r,
                            vals.drop_first(),
                            vals2.drop_first(),
                        );
                        assert(vals2[0] == vals[0]);
                        assert(combo_sources_rel(
                            srcs.push(x).drop_first(),
                            fs,
                            adjs,
                            nouns,
                            r,
                            vals2.drop_first(),
                        ));
                    },
                }
            },
        }
    }
}

pub proof fn lemma_combos_snoc(
    cs: Seq<CombinationFieldConfig>,
    x: CombinationFieldConfig,
    t: Seq<char>,
    fs: Seq<Seq<char>>,
    adjs: Seq<Seq<char>>,
    nouns: Seq<Seq<char>>,
    r0: Seq<Seq<char>>,
    mid: Seq<Seq<char>>,
    r1: Seq<Seq<char>>,
)
    requires
        combos_rel(cs, t, fs, adjs, nouns, r0, mid),
        combo_rule_rel(x, t, fs, adjs, nouns, mid, r1),
    ensures
        combos_rel(cs.push(x), t, fs, adjs, nouns, r0, r1),
    decreases cs.len(),
{
    if cs.len() == 0 {
        assert(mid == r0);
        assert(cs.push(x)[0] == x);
        assert(cs.push(x).drop_first() =~= Seq::<CombinationFieldConfig>::empty());
        assert(combos_rel(cs.push(x).drop_first(), t, fs, adjs, nouns, r1, r1));
    } else {
        assert(cs.push(x).drop_first() =~= cs.drop_first().push(x));
        assert(cs.push(x)[0] == cs[0]);
        assert(exists|w: Seq<Seq<char>>|
            #[trigger] combo_rule_rel(cs[0], t, fs, adjs, nouns, r0, w) && combos_rel(
                cs.drop_first(),
                t,
                fs,
                adjs,
                nouns,
                w,
                mid,
            ));
        let m = choose|w: Seq<Seq<char>>|
            #[trigger] combo_rule_rel(cs[0], t, fs, adjs, nouns, r0, w) && combos_rel(
                cs.drop_first(),
                t,
                fs,
                adjs,
                nouns,
                w,
                mid,
            );
        lemma_combos_snoc(cs.drop_first(), x, t, fs, adjs, nouns, m, mid, r1);
        assert(combo_rule_rel(cs.push(x)[0], t, fs, adjs, nouns, r0, m));
        assert(combos_rel(cs.push(x).drop_first(), t, fs, adjs, nouns, m, r1));
    }
}


// ---------------------------------------------------------------------------
// Laws of the rule stages.
// ---------------------------------------------------------------------------
/// Rule ordering: the combine stage reads the row that the standardize stage
/// produced. With no scrub rules, the pipeline relation says exactly that.
pub proof fn lemma_combine_reads_standardized(
    cfg: Config,
    t: Seq<char>,
    fs: Seq<Seq<char>>,
    adjs: Seq<Seq<char>>,
    nouns: Seq<Seq<char>>,
    r0: Seq<Seq<char>>,
    r1: Seq<Seq<char>>,
)
    requires
        cfg.scrubbing.random_names@.len() == 0,
        process_row_rel(cfg, t, fs, adjs, nouns, r0, r1),
    ensures
        combos_rel(
            cfg.combination_fields@,
            t,
            fs,
            adjs,
            nouns,
            std_fn(cfg.standardize, t, fs, r0),
            r1,
        ),
{
    let w = choose|w: Seq<Seq<char>>|
        #[trigger] scrub_rules_rel(cfg.scrubbing.random_names@, t, fs, adjs, nouns, r0, w)
            && combos_rel(
            cfg.combination_fields@,
            t,
            fs,
            adjs,
            nouns,
            std_fn(cfg.standardize, t, fs, w),
            r1,
        );
    assert(w == r0);
}

/// Rule ordering, sharply: one combine rule with a single plain source
/// writes the *standardized* value of that source to its target, not the
/// original.
pub proof fn lemma_rule_ordering(
    cfg: Config,
    t: Seq<char>,
    fs: Seq<Seq<char>>,
    adjs: Seq<Seq<char>>,
    nouns: Seq<Seq<char>>,
    r0: Seq<Seq<char>>,
    r1: Seq<Seq<char>>,
    idx: int,
    ti: int,
)
    requires
        cfg.scrubbing.random_names@.len() == 0,
        cfg.combination_fields@.len() == 1,
        cfg.combination_fields@[0].table@ == t,
        cfg.combination_fields@[0].fields@.len() == 1,
        cfg.combination_fields@[0].fields@[0].random_style@.len() == 0,
        spec_field_index(fs, cfg.combination_fields@[0].fields@[0].source_field@) == Some(idx),
        spec_field_index(fs, cfg.combination_fields@[0].target_field@) == Some(ti),
        process_row_rel(cfg, t, fs, adjs, nouns, r0, r1),
    ensures
        ({
            let standardized = std_fn(cfg.standardize, t, fs, r0);
            r1 == standardized.update(ti, standardized[idx])
        }),
{
    lemma_combine_reads_standardized(cfg, t, fs, adjs, nouns, r0, r1);
    let standardized = std_fn(cfg.standardize, t, fs, r0);
    let cs = cfg.combination_fields@;
    let c = cs[0];
    let m = choose|w: Seq<Seq<char>>|
        #[trigger] combo_rule_rel(cs[0], t, fs, adjs, nouns, standardized, w) && combos_rel(
            cs.drop_first(),
            t,
            fs,
            adjs,
            nouns,
            w,
            r1,
        );
    assert(cs.drop_first().len() == 0);
    assert(r1 == m);
    let vals = choose|vals: Seq<Seq<char>>|
        #[trigger] combo_sources_rel(c.fields@, fs, adjs, nouns, standardized, vals)
            && match spec_field_index(fs, c.target_field@) {
            Some(tj) => m == standardized.update(tj, spec_join(vals, c.separator@)),
            None => m == standardized,
        };
    assert(combo_sources_rel(c.fields@.drop_first(), fs, adjs, nouns, standardized, vals.drop_first()));
    assert(vals.drop_first().len() == 0);
    assert(vals =~~= seq![standardized[idx]]);
    assert(spec_join(vals, c.separator@) == vals[0]);
}

/// Skip on miss: a scrub rule whose field names all miss the schema leaves
/// the row exactly as it was.
pub proof fn lemma_scrub_skip_on_miss(
    names: Seq<Seq<char>>,
    fs: Seq<Seq<char>>,
    adjs: Seq<Seq<char>>,
    nouns: Seq<Seq<char>>,
    r0: Seq<Seq<char>>,
    r1: Seq<Seq<char>>,
)
    requires
        forall|j: int| 0 <= j < names.len() ==> spec_field_index(fs, #[trigger] names[j]) is None,
        scrub_fields_rel(names, fs, adjs, nouns, r0, r1),
    ensures
        r1 == r0,
    decreases names.len(),
{
    if names.len() > 0 {
        assert(spec_field_index(fs, names[0]) is None);
        assert(forall|j: int|
            0 <= j < names.drop_first().len() ==> spec_field_index(
                fs,
                #[trigger] names.drop_first()[j],
            ) is None);
        lemma_scrub_skip_on_miss(names.drop_first(), fs, adjs, nouns, r0, r1);
    }
}

/// Skip on miss: a scrub rule on a known table whose fields all miss the
/// schema raises no error.
pub proof fn lemma_scrub_miss_is_ok(
    rule: RandomNameConfig,
    t: Seq<char>,
    has_t: bool,
    fs: Seq<Seq<char>>,
    adjs: Seq<Seq<char>>,
    nouns: Seq<Seq<char>>,
    n: nat,
)
    requires
        has_t,
        forall|j: int|
            0 <= j < rule.fields@.len() ==> spec_field_index(
                fs,
                (#[trigger] rule.fields@[j])@,
            ) is None,
    ensures
        scrub_rule_ok(rule, t, has_t, fs, adjs, nouns, n),
{
}

/// Skip on miss: a standardize target that misses the schema leaves the row
/// exactly as it was, and raises no error on a known table.
pub proof fn lemma_std_skip_on_miss(
    targets: Seq<TableField>,
    value: Seq<char>,
    t: Seq<char>,
    has_t: bool,
    fs: Seq<Seq<char>>,
    n: nat,
    r: Seq<Seq<char>>,
)
    requires
        has_t,
        forall|j: int|
            0 <= j < targets.len() ==> spec_field_index(
                fs,
                (#[trigger] targets[j]).field@,
            ) is None,
    ensures
        std_targets_fn(targets, value, t, fs, r) == r,
        std_targets_ok(targets, t, has_t, fs, n),
    decreases targets.len(),
{
    if targets.len() > 0 {
        assert(std_target_fn(targets[0], value, t, fs, r) == r);
        assert(forall|j: int|
            0 <= j < targets.drop_first().len() ==> spec_field_index(
                fs,
                (#[trigger] targets.drop_first()[j]).field@,
            ) is None);
        lemma_std_skip_on_miss(targets.drop_first(), value, t, has_t, fs, n, r);
    }
}

/// Out of range is fatal: a standardize target that resolves to a position
/// at or past the row's field count fails the whole attempt (the stage's
/// success condition is violated, so the row errs rather than writes).
pub proof fn lemma_out_of_range_fatal(
    targets: Seq<TableField>,
    t: Seq<char>,
    has_t: bool,
    fs: Seq<Seq<char>>,
    n: nat,
    k: int,
)
    requires
        0 <= k < targets.len(),
        targets[k].table@ == t,
        spec_field_index(fs, targets[k].field@) matches Some(idx) && idx >= n,
    ensures
        !std_targets_ok(targets, t, has_t, fs, n),
{
    if std_targets_ok(targets, t, has_t, fs, n) {
        assert((targets[k]).table@ == t);
        assert(match spec_field_index(fs, targets[k].field@) {
            Some(idx) => idx < n,
            None => true,
        });
        assert(false);
    }
}


/// Skip on miss: combination sources that miss the schema contribute
/// nothing to the join — with every source missing, the collected value
/// list is empty.
pub proof fn lemma_combo_sources_all_miss(
    srcs: Seq<SourceField>,
    fs: Seq<Seq<char>>,
    adjs: Seq<Seq<char>>,
    nouns: Seq<Seq<char>>,
    r: Seq<Seq<char>>,
    vals: Seq<Seq<char>>,
)
    requires
        forall|j: int|
            0 <= j < srcs.len() ==> spec_field_index(
                fs,
                (#[trigger] srcs[j]).source_field@,
            ) is None,
        combo_sources_rel(srcs, fs, adjs, nouns, r, vals),
    ensures
        vals.len() == 0,
    decreases srcs.len(),
{
    if srcs.len() > 0 {
        assert(spec_field_index(fs, srcs[0].source_field@) is None);
        assert(forall|j: int|
            0 <= j < srcs.drop_first().len() ==> spec_field_index(
                fs,
                (#[trigger] srcs.drop_first()[j]).source_field@,
            ) is None);
        lemma_combo_sources_all_miss(srcs.drop_first(), fs, adjs, nouns, r, vals);
    }
}

} // verus!
