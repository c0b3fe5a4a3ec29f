//! A manifest tells its references apart: whatever is changed in one of them
//! changes the document, and with it what its content identifier names.

use vstd::prelude::*;

use crate::manifest::{
    json_char, json_chars, json_items, json_string, manifest_json, optional_json, reference_json,
    ContentRef, SkinReferences,
};
use crate::numerals::{decimal, digit_char, hex_byte, is_digit, lemma_decimal};
use crate::text::string_views;

verus! {

/// Whether two references say the same.
pub open spec fn same_reference(left: ContentRef, right: ContentRef) -> bool {
    &&& left.cid@ == right.cid@
    &&& left.size == right.size
    &&& string_views(left.hints@) == string_views(right.hints@)
}

/// Whether both references are absent or say the same.
pub open spec fn same_optional(left: Option<ContentRef>, right: Option<ContentRef>) -> bool {
    match (left, right) {
        (Some(left), Some(right)) => same_reference(left, right),
        (None, None) => true,
        _ => false,
    }
}

/// Whether two manifests refer to the same.
pub open spec fn same_references(left: SkinReferences, right: SkinReferences) -> bool {
    &&& same_optional(left.artpack, right.artpack)
    &&& same_optional(left.bodies, right.bodies)
    &&& same_reference(left.cardset, right.cardset)
    &&& same_optional(left.provenance, right.provenance)
    &&& same_reference(left.titles, right.titles)
}

proof fn lemma_cancel(front: Seq<char>, x: Seq<char>, y: Seq<char>)
    requires
        front + x == front + y,
    ensures
        x == y,
{
    assert((front + x).skip(front.len() as int) =~= x);
    assert((front + y).skip(front.len() as int) =~= y);
}

proof fn lemma_digit_injective(a: int, b: int)
    requires
        0 <= a < 16,
        0 <= b < 16,
        digit_char(a) == digit_char(b),
    ensures
        a == b,
{
}

/// What one character reads as in a JSON string tells the character and where
/// it ends.
proof fn lemma_char_prefix(a: char, b: char, x: Seq<char>, y: Seq<char>)
    requires
        json_char(a) + x == json_char(b) + y,
    ensures
        a == b,
        x == y,
{
    let left = json_char(a) + x;
    let right = json_char(b) + y;
    assert(left[0] == json_char(a)[0]);
    assert(right[0] == json_char(b)[0]);
    if json_char(a).len() >= 2 && json_char(b).len() >= 2 {
        assert(left[1] == json_char(a)[1]);
        assert(right[1] == json_char(b)[1]);
        if json_char(a).len() == 6 && json_char(b).len() == 6 {
            assert(left[4] == hex_byte(a as u8)[0]);
            assert(right[4] == hex_byte(b as u8)[0]);
            assert(left[5] == hex_byte(a as u8)[1]);
            assert(right[5] == hex_byte(b as u8)[1]);
            lemma_digit_injective(a as u8 as int / 16, b as u8 as int / 16);
            lemma_digit_injective(a as u8 as int % 16, b as u8 as int % 16);
            assert(a as u8 == b as u8);
            assert(a as u32 == b as u32);
        }
    }
    lemma_cancel(json_char(a), x, y);
}

proof fn lemma_chars_front(text: Seq<char>)
    requires
        text.len() > 0,
    ensures
        json_chars(text) == json_char(text[0]) + json_chars(text.drop_first()),
    decreases text.len(),
{
    if text.len() == 1 {
        assert(text.drop_last() =~= Seq::empty());
        assert(text.drop_first() =~= Seq::empty());
        assert(json_chars(text) =~= json_char(text[0]) + json_chars(text.drop_first()));
    } else {
        lemma_chars_front(text.drop_last());
        assert(text.drop_last().drop_first() =~= text.drop_first().drop_last());
        assert(json_chars(text) =~= json_char(text[0]) + json_chars(text.drop_first()));
    }
}

proof fn lemma_chars_prefix(a: Seq<char>, b: Seq<char>, x: Seq<char>, y: Seq<char>)
    requires
        json_chars(a) + seq!['"'] + x == json_chars(b) + seq!['"'] + y,
    ensures
        a == b,
        x == y,
    decreases a.len(),
{
    let left = json_chars(a) + seq!['"'] + x;
    let right = json_chars(b) + seq!['"'] + y;
    if a.len() > 0 {
        lemma_chars_front(a);
    }
    if b.len() > 0 {
        lemma_chars_front(b);
    }
    if a.len() == 0 && b.len() == 0 {
        assert(a =~= b);
        lemma_cancel(json_chars(a) + seq!['"'], x, y);
    } else if a.len() == 0 {
        assert(left[0] == '"');
        assert(right[0] == json_char(b[0])[0]);
    } else if b.len() == 0 {
        assert(right[0] == '"');
        assert(left[0] == json_char(a[0])[0]);
    } else {
        let a_tail = json_chars(a.drop_first()) + seq!['"'] + x;
        let b_tail = json_chars(b.drop_first()) + seq!['"'] + y;
        assert(left =~= json_char(a[0]) + a_tail);
        assert(right =~= json_char(b[0]) + b_tail);
        lemma_char_prefix(a[0], b[0], a_tail, b_tail);
        lemma_chars_prefix(a.drop_first(), b.drop_first(), x, y);
        assert(a =~= seq![a[0]] + a.drop_first());
        assert(b =~= seq![b[0]] + b.drop_first());
    }
}

/// A JSON string tells the text and where it ends.
proof fn lemma_string_prefix(a: Seq<char>, b: Seq<char>, x: Seq<char>, y: Seq<char>)
    requires
        json_string(a) + x == json_string(b) + y,
    ensures
        a == b,
        x == y,
{
    reveal_strlit("\"");
    assert("\""@ =~= seq!['"']);
    let quote = seq!['"'];
    assert(json_string(a) + x =~= quote + (json_chars(a) + quote + x));
    assert(json_string(b) + y =~= quote + (json_chars(b) + quote + y));
    lemma_cancel(quote, json_chars(a) + quote + x, json_chars(b) + quote + y);
    lemma_chars_prefix(a, b, x, y);
}

/// JSON strings, each with a comma in front.
spec fn more_items(texts: Seq<Seq<char>>) -> Seq<char>
    decreases texts.len(),
{
    if texts.len() == 0 {
        Seq::empty()
    } else {
        seq![','] + json_string(texts[0]) + more_items(texts.drop_first())
    }
}

proof fn lemma_more_items_push(texts: Seq<Seq<char>>, text: Seq<char>)
    ensures
        more_items(texts.push(text)) == more_items(texts) + seq![','] + json_string(text),
    decreases texts.len(),
{
    let all = texts.push(text);
    if texts.len() == 0 {
        assert(all.drop_first() =~= Seq::empty());
        assert(more_items(all.drop_first()) =~= Seq::empty());
        assert(all[0] == text);
        assert(more_items(all) =~= more_items(texts) + seq![','] + json_string(text));
    } else {
        assert(all.drop_first() =~= texts.drop_first().push(text));
        lemma_more_items_push(texts.drop_first(), text);
        assert(more_items(all) =~= more_items(texts) + seq![','] + json_string(text));
    }
}

proof fn lemma_items_front(texts: Seq<Seq<char>>)
    requires
        texts.len() > 0,
    ensures
        json_items(texts) == json_string(texts[0]) + more_items(texts.drop_first()),
    decreases texts.len(),
{
    if texts.len() == 1 {
        assert(texts.drop_first() =~= Seq::empty());
        assert(more_items(texts.drop_first()) =~= Seq::empty());
        assert(json_items(texts) =~= json_string(texts[0]) + more_items(texts.drop_first()));
    } else {
        reveal_strlit(",");
        assert(","@ =~= seq![',']);
        let front = texts.drop_last();
        lemma_items_front(front);
        lemma_more_items_push(front.drop_first(), texts.last());
        assert(front.drop_first().push(texts.last()) =~= texts.drop_first());
        assert(json_items(texts) =~= json_string(texts[0]) + more_items(texts.drop_first()));
    }
}

proof fn lemma_more_items_prefix(
    a: Seq<Seq<char>>,
    b: Seq<Seq<char>>,
    x: Seq<char>,
    y: Seq<char>,
)
    requires
        more_items(a) + seq![']'] + x == more_items(b) + seq![']'] + y,
    ensures
        a == b,
        x == y,
    decreases a.len(),
{
    let left = more_items(a) + seq![']'] + x;
    let right = more_items(b) + seq![']'] + y;
    if a.len() == 0 && b.len() == 0 {
        assert(a =~= b);
        lemma_cancel(more_items(a) + seq![']'], x, y);
    } else if a.len() == 0 {
        assert(left[0] == ']');
        assert(right[0] == ',');
    } else if b.len() == 0 {
        assert(left[0] == ',');
        assert(right[0] == ']');
    } else {
        let a_tail = more_items(a.drop_first()) + seq![']'] + x;
        let b_tail = more_items(b.drop_first()) + seq![']'] + y;
        assert(left =~= seq![','] + (json_string(a[0]) + a_tail));
        assert(right =~= seq![','] + (json_string(b[0]) + b_tail));
        lemma_cancel(seq![','], json_string(a[0]) + a_tail, json_string(b[0]) + b_tail);
        lemma_string_prefix(a[0], b[0], a_tail, b_tail);
        lemma_more_items_prefix(a.drop_first(), b.drop_first(), x, y);
        assert(a =~= seq![a[0]] + a.drop_first());
        assert(b =~= seq![b[0]] + b.drop_first());
    }
}

/// A JSON list of strings tells the strings and where it ends.
proof fn lemma_items_prefix(a: Seq<Seq<char>>, b: Seq<Seq<char>>, x: Seq<char>, y: Seq<char>)
    requires
        json_items(a) + seq![']'] + x == json_items(b) + seq![']'] + y,
    ensures
        a == b,
        x == y,
{
    let left = json_items(a) + seq![']'] + x;
    let right = json_items(b) + seq![']'] + y;
    reveal_strlit("\"");
    if a.len() > 0 {
        lemma_items_front(a);
        assert(left[0] == '"');
    }
    if b.len() > 0 {
        lemma_items_front(b);
        assert(right[0] == '"');
    }
    if a.len() == 0 && b.len() == 0 {
        assert(a =~= b);
        lemma_cancel(json_items(a) + seq![']'], x, y);
    } else if a.len() == 0 {
        assert(left[0] == ']');
    } else if b.len() == 0 {
        assert(right[0] == ']');
    } else {
        let a_tail = more_items(a.drop_first()) + seq![']'] + x;
        let b_tail = more_items(b.drop_first()) + seq![']'] + y;
        assert(left =~= json_string(a[0]) + a_tail);
        assert(right =~= json_string(b[0]) + b_tail);
        lemma_string_prefix(a[0], b[0], a_tail, b_tail);
        lemma_more_items_prefix(a.drop_first(), b.drop_first(), x, y);
        assert(a =~= seq![a[0]] + a.drop_first());
        assert(b =~= seq![b[0]] + b.drop_first());
    }
}

/// A numeral in front of a brace tells the number and where it ends.
proof fn lemma_number_prefix(a: nat, b: nat, x: Seq<char>, y: Seq<char>)
    requires
        decimal(a) + seq!['}'] + x == decimal(b) + seq!['}'] + y,
    ensures
        a == b,
        x == y,
{
    let left = decimal(a) + seq!['}'] + x;
    let right = decimal(b) + seq!['}'] + y;
    lemma_decimal(a);
    lemma_decimal(b);
    let i = decimal(a).len() as int;
    let j = decimal(b).len() as int;
    assert(left[i] == '}');
    assert(right[j] == '}');
    if i < j {
        assert(right[i] == decimal(b)[i]);
        assert(is_digit(decimal(b)[i]));
    }
    if j < i {
        assert(left[j] == decimal(a)[j]);
        assert(is_digit(decimal(a)[j]));
    }
    assert(left.take(i) =~= decimal(a));
    assert(right.take(j) =~= decimal(b));
    lemma_cancel(decimal(a) + seq!['}'], x, y);
}

/// The JSON object of a reference tells the reference and where it ends.
proof fn lemma_reference_prefix(a: ContentRef, b: ContentRef, x: Seq<char>, y: Seq<char>)
    requires
        reference_json(a) + x == reference_json(b) + y,
    ensures
        same_reference(a, b),
        x == y,
{
    let open = "{\"cid\":"@;
    let middle = ",\"hints\":["@;
    let close = "],\"size\":"@;
    let end = "}"@;
    reveal_strlit("],\"size\":");
    reveal_strlit("}");
    assert(end =~= seq!['}']);
    let after = close.skip(1);
    assert(close =~= seq![']'] + after);
    let a_size = decimal(a.size as nat) + seq!['}'] + x;
    let b_size = decimal(b.size as nat) + seq!['}'] + y;
    let a_items = json_items(string_views(a.hints@)) + seq![']'] + (after + a_size);
    let b_items = json_items(string_views(b.hints@)) + seq![']'] + (after + b_size);
    let a_cid = json_string(a.cid@) + (middle + a_items);
    let b_cid = json_string(b.cid@) + (middle + b_items);
    assert(reference_json(a) + x =~= open + a_cid);
    assert(reference_json(b) + y =~= open + b_cid);
    lemma_cancel(open, a_cid, b_cid);
    lemma_string_prefix(a.cid@, b.cid@, middle + a_items, middle + b_items);
    lemma_cancel(middle, a_items, b_items);
    lemma_items_prefix(
        string_views(a.hints@),
        string_views(b.hints@),
        after + a_size,
        after + b_size,
    );
    lemma_cancel(after, a_size, b_size);
    lemma_number_prefix(a.size as nat, b.size as nat, x, y);
}

/// A member that may be absent is told from what follows it.
proof fn lemma_optional_prefix(
    name: Seq<char>,
    a: Option<ContentRef>,
    b: Option<ContentRef>,
    x: Seq<char>,
    y: Seq<char>,
)
    requires
        name.len() > 0,
        x.len() > 1,
        y.len() > 1,
        x[1] != name[0],
        y[1] != name[0],
        optional_json(name, a) + x == optional_json(name, b) + y,
    ensures
        same_optional(a, b),
        x == y,
{
    let left = optional_json(name, a) + x;
    let right = optional_json(name, b) + y;
    let quote = "\""@;
    let colon = "\":"@;
    reveal_strlit("\"");
    if a is Some {
        assert(left[1] == name[0]);
    } else {
        assert(left =~= x);
    }
    if b is Some {
        assert(right[1] == name[0]);
    } else {
        assert(right =~= y);
    }
    if a is Some && b is Some {
        let front = quote + name + colon;
        let comma = ","@;
        let a_rest = reference_json(a->0) + (comma + x);
        let b_rest = reference_json(b->0) + (comma + y);
        assert(left =~= front + a_rest);
        assert(right =~= front + b_rest);
        lemma_cancel(front, a_rest, b_rest);
        lemma_reference_prefix(a->0, b->0, comma + x, comma + y);
        lemma_cancel(comma, x, y);
    }
}

/// The manifest from the provenance member on.
spec fn from_provenance(references: SkinReferences) -> Seq<char> {
    optional_json("provenance"@, references.provenance) + from_titles(references)
}

/// The manifest from the titles on.
spec fn from_titles(references: SkinReferences) -> Seq<char> {
    "\"titles\":"@ + (reference_json(references.titles) + ",\"version\":1}"@)
}

/// The manifest from the card set on.
spec fn from_cardset(references: SkinReferences) -> Seq<char> {
    "\"cardset\":"@ + (reference_json(references.cardset)
        + (",\"format\":\"deepscry-card-skin\","@ + from_provenance(references)))
}

/// The manifest from the bodies member on.
spec fn from_bodies(references: SkinReferences) -> Seq<char> {
    optional_json("bodies"@, references.bodies) + from_cardset(references)
}

/// Joining texts from the left or from the right makes no difference.
proof fn lemma_regroup(
    a: Seq<char>,
    b: Seq<char>,
    c: Seq<char>,
    d: Seq<char>,
    e: Seq<char>,
    f: Seq<char>,
)
    ensures
        a + b + c + d + e + f == a + (b + (c + (d + (e + f)))),
{
    assert(a + b + c + d + e + f =~= a + (b + (c + (d + (e + f)))));
}

proof fn lemma_manifest_parts(references: SkinReferences)
    ensures
        manifest_json(references) == "{"@ + (optional_json("artpack"@, references.artpack)
            + from_bodies(references)),
        from_bodies(references).len() > 1,
        from_bodies(references)[1] == 'b' || from_bodies(references)[1] == 'c',
        from_cardset(references).len() > 1,
        from_cardset(references)[1] == 'c',
        from_titles(references).len() > 1,
        from_titles(references)[1] == 't',
{
    let front = "{"@ + optional_json("artpack"@, references.artpack) + optional_json(
        "bodies"@,
        references.bodies,
    ) + "\"cardset\":"@ + reference_json(references.cardset);
    lemma_regroup(
        front,
        ",\"format\":\"deepscry-card-skin\","@,
        optional_json("provenance"@, references.provenance),
        "\"titles\":"@,
        reference_json(references.titles),
        ",\"version\":1}"@,
    );
    lemma_regroup(
        "{"@,
        optional_json("artpack"@, references.artpack),
        optional_json("bodies"@, references.bodies),
        "\"cardset\":"@,
        reference_json(references.cardset),
        ",\"format\":\"deepscry-card-skin\","@ + from_provenance(references),
    );
    lemma_starts(references);
}

proof fn lemma_starts(references: SkinReferences)
    ensures
        from_bodies(references).len() > 1,
        from_bodies(references)[1] == 'b' || from_bodies(references)[1] == 'c',
        from_cardset(references).len() > 1,
        from_cardset(references)[1] == 'c',
        from_titles(references).len() > 1,
        from_titles(references)[1] == 't',
{
    reveal_strlit("\"");
    reveal_strlit("\"titles\":");
    reveal_strlit("\"cardset\":");
    reveal_strlit("bodies");
    if references.bodies is Some {
        assert(from_bodies(references)[1] == "bodies"@[0]);
    } else {
        assert(from_bodies(references) =~= from_cardset(references));
    }
}

/// Manifests with the same document refer to the same: a changed hint, size or
/// content identifier makes another document.
pub proof fn law_manifests_tell_their_references(left: SkinReferences, right: SkinReferences)
    requires
        manifest_json(left) == manifest_json(right),
    ensures
        same_references(left, right),
{
    lemma_manifest_parts(left);
    lemma_manifest_parts(right);
    reveal_strlit("artpack");
    reveal_strlit("bodies");
    reveal_strlit("provenance");
    lemma_cancel(
        "{"@,
        optional_json("artpack"@, left.artpack) + from_bodies(left),
        optional_json("artpack"@, right.artpack) + from_bodies(right),
    );
    lemma_optional_prefix(
        "artpack"@,
        left.artpack,
        right.artpack,
        from_bodies(left),
        from_bodies(right),
    );
    lemma_optional_prefix(
        "bodies"@,
        left.bodies,
        right.bodies,
        from_cardset(left),
        from_cardset(right),
    );
    let format = ",\"format\":\"deepscry-card-skin\","@;
    lemma_cancel(
        "\"cardset\":"@,
        reference_json(left.cardset) + (format + from_provenance(left)),
        reference_json(right.cardset) + (format + from_provenance(right)),
    );
    lemma_reference_prefix(
        left.cardset,
        right.cardset,
        format + from_provenance(left),
        format + from_provenance(right),
    );
    lemma_cancel(format, from_provenance(left), from_provenance(right));
    lemma_optional_prefix(
        "provenance"@,
        left.provenance,
        right.provenance,
        from_titles(left),
        from_titles(right),
    );
    let version = ",\"version\":1}"@;
    lemma_cancel(
        "\"titles\":"@,
        reference_json(left.titles) + version,
        reference_json(right.titles) + version,
    );
    lemma_reference_prefix(left.titles, right.titles, version, version);
}

} // verus!
