//! What reports say of the results behind them.

use vstd::prelude::*;

use super::grouping::{
    bytes_before, group_keys, is_grouping, law_order_is_strict, law_ordered_keys, law_places,
    ordered_keys, parts_at, places_of, text_before, Group,
};
use super::report::{csv_line_of, escaped, op_display_of, SystemSummary};
use crate::text::{begins_with, digits, optional_digits, replaced};

verus! {

/// A text with each quote doubled.
pub open spec fn doubled(text: Seq<char>) -> Seq<char>
    decreases text.len(),
{
    if text.len() == 0 {
        Seq::empty()
    } else if text[0] == '"' {
        seq!['"', '"'] + doubled(text.skip(1))
    } else {
        seq![text[0]] + doubled(text.skip(1))
    }
}

/// A text with each pair of quotes taken for one.
pub open spec fn halved(text: Seq<char>) -> Seq<char>
    decreases text.len(),
{
    if text.len() == 0 {
        Seq::empty()
    } else if text.len() >= 2 && text[0] == '"' && text[1] == '"' {
        seq!['"'] + halved(text.skip(2))
    } else {
        seq![text[0]] + halved(text.skip(1))
    }
}

/// What a reader of a CSV file takes a field for: between quotes, with each pair
/// of quotes taken for one; otherwise as it stands.
pub open spec fn field_read(text: Seq<char>) -> Seq<char> {
    if text.len() >= 2 && text[0] == '"' && text.last() == '"' {
        halved(text.subrange(1, text.len() - 1))
    } else {
        text
    }
}

proof fn lemma_replaced_is_doubled(text: Seq<char>)
    ensures
        replaced(text, "\""@, "\"\""@) == doubled(text),
    decreases text.len(),
{
    reveal_strlit("\"");
    reveal_strlit("\"\"");
    let quote = "\""@;
    assert(quote =~= seq!['"']);
    assert("\"\""@ =~= seq!['"', '"']);
    if text.len() > 0 {
        lemma_replaced_is_doubled(text.skip(1));
        assert(begins_with(text, quote) <==> text[0] == '"') by {
            assert(text.subrange(0, 1) =~= seq![text[0]]);
            if begins_with(text, quote) {
                assert(text.subrange(0, 1)[0] == quote[0]);
            }
        }
    } else {
        assert(doubled(text) =~= text);
    }
}

proof fn lemma_halved_doubled(text: Seq<char>)
    ensures
        halved(doubled(text)) == text,
    decreases text.len(),
{
    let d = doubled(text);
    if text.len() > 0 {
        let rest = text.skip(1);
        lemma_halved_doubled(rest);
        assert(seq![text[0]] + rest =~= text);
        if text[0] == '"' {
            assert(d[0] == '"' && d[1] == '"');
            assert(d.skip(2) =~= doubled(rest));
        } else {
            assert(d[0] == text[0]);
            assert(d.skip(1) =~= doubled(rest));
        }
    } else {
        assert(d =~= text);
    }
}

/// A field of a CSV file reads back as the text that it was written for, and one
/// that is not quoted holds no comma, quote or line break.
pub proof fn law_field_reads_back(field: Seq<char>)
    ensures
        field_read(escaped(field)) == field,
        !(escaped(field).len() > 0 && escaped(field)[0] == '"') ==> !escaped(field).contains(',')
            && !escaped(field).contains('"') && !escaped(field).contains('\n'),
        field.contains(',') || field.contains('"') || field.contains('\n') ==> escaped(field).len()
            >= 2 && escaped(field)[0] == '"' && escaped(field).last() == '"',
{
    reveal_strlit("\"");
    if field.contains(',') || field.contains('"') || field.contains('\n') {
        lemma_replaced_is_doubled(field);
        lemma_halved_doubled(field);
        let text = escaped(field);
        assert(text.subrange(1, text.len() - 1) =~= doubled(field));
    } else if field.len() > 0 && field[0] == '"' {
        assert(field.contains(field[0]));
    }
}

/// Fields with a comma between each two.
pub open spec fn comma_joined(fields: Seq<Seq<char>>) -> Seq<char>
    decreases fields.len(),
{
    if fields.len() == 0 {
        Seq::empty()
    } else if fields.len() == 1 {
        fields[0]
    } else {
        comma_joined(fields.drop_last()) + seq![','] + fields.last()
    }
}

/// The fields of a line: the scale, the system, the numbers of nodes and edges,
/// the two times or nothing, the label, and the numbers of the sample.
pub open spec fn line_fields(
    summary: SystemSummary,
    label: Seq<char>,
    numbers: Seq<String>,
) -> Seq<Seq<char>> {
    seq![
        escaped(summary.scale_label@),
        escaped(summary.system@),
        digits(summary.node_count as nat, 10),
        digits(summary.edge_count as nat, 10),
        optional_digits(summary.connection_ms),
        optional_digits(summary.import_ms),
        escaped(label),
    ] + numbers.map_values(|s: String| s@)
}

/// A line of a CSV report is made of its fields, in the order of the header, with
/// commas between them.
pub proof fn law_line_has_fields(summary: SystemSummary, label: Seq<char>, numbers: Seq<String>)
    ensures
        csv_line_of(summary, label, numbers) == comma_joined(line_fields(summary, label, numbers)),
        line_fields(summary, label, numbers).len() == 7 + numbers.len(),
    decreases numbers.len(),
{
    reveal_strlit(",");
    assert(","@ =~= seq![',']);
    let fields = line_fields(summary, label, numbers);
    if numbers.len() == 0 {
        let a = fields[0];
        let b = fields[1];
        let c = fields[2];
        let d = fields[3];
        let e = fields[4];
        let f = fields[5];
        let g = fields[6];
        assert(fields =~= seq![a, b, c, d, e, f, g]);
        lemma_seven_fields(a, b, c, d, e, f, g);
        assert(csv_line_of(summary, label, numbers) =~= comma_joined(fields));
    } else {
        let rest = numbers.drop_last();
        law_line_has_fields(summary, label, rest);
        assert(fields.drop_last() =~= line_fields(summary, label, rest));
        assert(fields.last() == numbers.last()@);
        assert(csv_line_of(summary, label, numbers) =~= csv_line_of(summary, label, rest) + seq![
            ',',
        ] + numbers.last()@);
    }
}

proof fn lemma_seven_fields(
    a: Seq<char>,
    b: Seq<char>,
    c: Seq<char>,
    d: Seq<char>,
    e: Seq<char>,
    f: Seq<char>,
    g: Seq<char>,
)
    ensures
        comma_joined(seq![a, b, c, d, e, f, g]) == a + seq![','] + b + seq![','] + c + seq![','] + d
            + seq![','] + e + seq![','] + f + seq![','] + g,
{
    assert(seq![a, b, c, d, e, f, g].drop_last() =~= seq![a, b, c, d, e, f]);
    assert(seq![a, b, c, d, e, f].drop_last() =~= seq![a, b, c, d, e]);
    assert(seq![a, b, c, d, e].drop_last() =~= seq![a, b, c, d]);
    assert(seq![a, b, c, d].drop_last() =~= seq![a, b, c]);
    assert(seq![a, b, c].drop_last() =~= seq![a, b]);
    assert(seq![a, b].drop_last() =~= seq![a]);
    assert(comma_joined(seq![a]) == a);
    assert(comma_joined(seq![a, b]) == a + seq![','] + b);
    assert(comma_joined(seq![a, b, c]) == comma_joined(seq![a, b]) + seq![','] + c);
    assert(comma_joined(seq![a, b, c, d]) == comma_joined(seq![a, b, c]) + seq![','] + d);
    assert(comma_joined(seq![a, b, c, d, e]) == comma_joined(seq![a, b, c, d]) + seq![','] + e);
    assert(comma_joined(seq![a, b, c, d, e, f]) == comma_joined(seq![a, b, c, d, e]) + seq![',']
        + f);
}

/// Bytes come in the order of the first place where they differ, and what ends
/// first comes first.
pub proof fn law_bytes_are_ordered(a: Seq<u8>, b: Seq<u8>, k: int)
    requires
        0 <= k <= a.len(),
        k < b.len(),
        forall|i: int| 0 <= i < k ==> #[trigger] a[i] == b[i],
        k < a.len() ==> a[k] < b[k],
    ensures
        bytes_before(a, b),
        !bytes_before(b, a),
{
    assert(a.subrange(0, k) =~= b.subrange(0, k));
    assert(parts_at(a, b, k));
    if bytes_before(b, a) {
        let j = choose|j: int| parts_at(b, a, j);
        if j < k {
            assert(a[j] == b[j]);
        } else {
            assert(k < a.len());
            if k < j {
                assert(b.subrange(0, j)[k] == a.subrange(0, j)[k]);
            }
        }
    }
}

/// Groups take every text once: each place stands in the group with its text and
/// in no other, groups are not empty, their members ascend, and the groups come
/// in the order of their texts.
pub proof fn law_groups_take_every_text(
    groups: Seq<Group>,
    texts: Seq<Seq<char>>,
    i: int,
    g: int,
    p: int,
    q: int,
)
    requires
        is_grouping(groups, texts),
        texts.len() <= usize::MAX,
        0 <= i < texts.len(),
        0 <= g < groups.len(),
        0 <= p < q,
    ensures
        groups[g].members@.contains(i as usize) <==> groups[g].key@ == texts[i],
        exists|h: int| 0 <= h < groups.len() && (#[trigger] groups[h]).key@ == texts[i],
        groups[g].members@.len() > 0,
        q < groups[g].members@.len() ==> groups[g].members@[p] < groups[g].members@[q]
            && groups[g].members@[q] < texts.len(),
        q < groups.len() ==> text_before(groups[p].key@, groups[q].key@) && groups[p].key@
            != groups[q].key@,
{
    let keys = ordered_keys(texts);
    law_ordered_keys(texts);
    let group = groups[g];
    law_places(texts, group.key@);
    assert(group_keys(groups)[g] == group.key@);
    assert(texts.contains(texts[i]));
    assert(keys.contains(texts[i]));
    let h = choose|h: int| 0 <= h < keys.len() && keys[h] == texts[i];
    assert(group_keys(groups)[h] == groups[h].key@);
    assert(keys.contains(group.key@)) by {
        assert(keys[g] == group.key@);
    }
    assert(texts.contains(group.key@));
    let j = choose|j: int| 0 <= j < texts.len() && texts[j] == group.key@;
    assert(places_of(texts, group.key@).contains(j as usize));
    lemma_places_ascend(texts, group.key@, p, q);
    if q < groups.len() {
        assert(group_keys(groups)[p] == groups[p].key@);
        assert(group_keys(groups)[q] == groups[q].key@);
        assert(text_before(keys[p], keys[q]));
        law_order_is_strict(keys[p]);
    }
}

proof fn lemma_places_ascend(texts: Seq<Seq<char>>, key: Seq<char>, p: int, q: int)
    requires
        texts.len() <= usize::MAX,
        0 <= p < q,
    ensures
        q < places_of(texts, key).len() ==> places_of(texts, key)[p] < places_of(texts, key)[q]
            && places_of(texts, key)[q] < texts.len(),
        p < places_of(texts, key).len() ==> places_of(texts, key)[p] < texts.len(),
    decreases texts.len(),
{
    if texts.len() > 0 {
        lemma_places_ascend(texts.drop_last(), key, p, q);
    }
}

/// Whether a key stands for one of the kinds of operation that a run takes.
pub open spec fn is_kind(key: Seq<char>) -> bool {
    ||| key == "entity_get"@
    ||| key == "spatial_full_view"@
    ||| key == "spatial_mid"@
    ||| key == "spatial_small"@
    ||| key == "spatial_ll"@
    ||| key == "spatial_ur"@
    ||| key == "spatial"@
    ||| key == "bfs_depth2"@
    ||| key == "full_scan"@
}

/// Two kinds of operation are never shown by the same text, and what is no such
/// kind is shown by its own key.
pub proof fn law_displays_tell_apart(a: Seq<char>, b: Seq<char>)
    ensures
        is_kind(a) && is_kind(b) && op_display_of(a) == op_display_of(b) ==> a == b,
        !is_kind(a) ==> op_display_of(a) == a,
{
    reveal_strlit("entity_get");
    reveal_strlit("spatial_full_view");
    reveal_strlit("spatial_mid");
    reveal_strlit("spatial_small");
    reveal_strlit("spatial_ll");
    reveal_strlit("spatial_ur");
    reveal_strlit("spatial");
    reveal_strlit("bfs_depth2");
    reveal_strlit("full_scan");
    reveal_strlit("Entity get (hot)");
    reveal_strlit("Spatial [full]");
    reveal_strlit("Spatial [mid]");
    reveal_strlit("Spatial [small]");
    reveal_strlit("Spatial [LL]");
    reveal_strlit("Spatial [UR]");
    reveal_strlit("Spatial query");
    reveal_strlit("BFS depth=2");
    reveal_strlit("Full scan");
    assert("entity_get"@.len() == 10 && "Entity get (hot)"@.len() == 16);
    assert("spatial_full_view"@.len() == 17 && "Spatial [full]"@.len() == 14);
    assert("spatial_mid"@.len() == 11 && "Spatial [mid]"@.len() == 13);
    assert("spatial_small"@.len() == 13 && "Spatial [small]"@.len() == 15);
    assert("spatial_ll"@.len() == 10 && "Spatial [LL]"@.len() == 12);
    assert("spatial_ur"@.len() == 10 && "Spatial [UR]"@.len() == 12);
    assert("spatial"@.len() == 7 && "Spatial query"@.len() == 13);
    assert("bfs_depth2"@.len() == 10 && "BFS depth=2"@.len() == 11);
    assert("full_scan"@.len() == 9 && "Full scan"@.len() == 9);
    assert("entity_get"@[0] == 'e' && "bfs_depth2"@[0] == 'b');
    assert("spatial_ll"@[0] == 's' && "spatial_ll"@[8] == 'l');
    assert("spatial_ur"@[0] == 's' && "spatial_ur"@[8] == 'u');
    assert("Spatial [LL]"@[9] == 'L' && "Spatial [UR]"@[9] == 'U');
    assert("Spatial [mid]"@[8] == '[' && "Spatial query"@[8] == 'q');
}

} // verus!
