//! The skin manifest: the canonical JSON object whose content identifier names
//! a whole card skin.

use vstd::prelude::*;

use crate::cas::{cid_for_bytes, cid_of};
use crate::numerals::{append_decimal, append_hex_byte, decimal, hex_byte};
use crate::text::{
    append_str, chars_of, halves, has_prefix, reads, split_once, starts_with, string_of,
    string_views,
};

verus! {

/// The artifacts that a manifest may refer to.
#[derive(Clone, Copy, Debug, Eq, PartialEq, Structural)]
pub enum Member {
    Artpack,
    Bodies,
    Cardset,
    Provenance,
    Titles,
}

/// The artifact with the name.
pub open spec fn member_of(name: Seq<char>) -> Option<Member> {
    if name == "artpack"@ {
        Some(Member::Artpack)
    } else if name == "bodies"@ {
        Some(Member::Bodies)
    } else if name == "cardset"@ {
        Some(Member::Cardset)
    } else if name == "provenance"@ {
        Some(Member::Provenance)
    } else if name == "titles"@ {
        Some(Member::Titles)
    } else {
        None
    }
}

/// What is wrong with a retrieval hint.
#[derive(Debug)]
pub enum HintError {
    /// It is not an artifact and a URL with an equals sign between them.
    NoSeparator,
    /// The artifact is none.
    UnknownMember(String),
    /// The URL is not an absolute `http` or `https` one.
    NotAbsolute(String),
}

/// Why a manifest cannot be assembled.
#[derive(Debug)]
pub enum ManifestError {
    /// A hint is wrong.
    Hint(HintError),
    /// There are hints for an artifact that was not supplied.
    MissingArtifact(Member),
}

/// Why a manifest cannot be assembled, as texts.
pub enum ManifestProblem {
    NoSeparator,
    UnknownMember(Seq<char>),
    NotAbsolute(Seq<char>),
    MissingArtifact(Member),
}

/// What the error says of a hint.
pub open spec fn hint_problem(error: HintError) -> ManifestProblem {
    match error {
        HintError::NoSeparator => ManifestProblem::NoSeparator,
        HintError::UnknownMember(name) => ManifestProblem::UnknownMember(name@),
        HintError::NotAbsolute(url) => ManifestProblem::NotAbsolute(url@),
    }
}

/// What the error says.
pub open spec fn manifest_problem(error: ManifestError) -> ManifestProblem {
    match error {
        ManifestError::Hint(error) => hint_problem(error),
        ManifestError::MissingArtifact(member) => ManifestProblem::MissingArtifact(member),
    }
}

/// The artifact and the URL of a hint.
pub open spec fn hint_of(hint: Seq<char>) -> Result<(Member, Seq<char>), ManifestProblem> {
    match split_once(hint, '=') {
        None => Err(ManifestProblem::NoSeparator),
        Some((name, url)) => match member_of(name) {
            None => Err(ManifestProblem::UnknownMember(name)),
            Some(member) => if starts_with(url, "https://"@) || starts_with(url, "http://"@) {
                Ok((member, url))
            } else {
                Err(ManifestProblem::NotAbsolute(url))
            },
        },
    }
}

/// The artifacts and URLs of the hints, or the first problem.
pub open spec fn hints_of(hints: Seq<Seq<char>>) -> Result<
    Seq<(Member, Seq<char>)>,
    ManifestProblem,
>
    decreases hints.len(),
{
    if hints.len() == 0 {
        Ok(Seq::empty())
    } else {
        match hints_of(hints.drop_last()) {
            Err(problem) => Err(problem),
            Ok(earlier) => match hint_of(hints.last()) {
                Ok(hint) => Ok(earlier.push(hint)),
                Err(problem) => Err(problem),
            },
        }
    }
}

/// The URLs for an artifact, in their order.
pub open spec fn urls_for(hints: Seq<(Member, Seq<char>)>, member: Member) -> Seq<Seq<char>>
    decreases hints.len(),
{
    if hints.len() == 0 {
        Seq::empty()
    } else {
        let earlier = urls_for(hints.drop_last(), member);
        if hints.last().0 == member {
            earlier.push(hints.last().1)
        } else {
            earlier
        }
    }
}

/// A character of a JSON string.
pub open spec fn json_char(c: char) -> Seq<char> {
    if c == '"' {
        seq!['\\', '"']
    } else if c == '\\' {
        seq!['\\', '\\']
    } else if c == '\u{8}' {
        seq!['\\', 'b']
    } else if c == '\u{9}' {
        seq!['\\', 't']
    } else if c == '\u{a}' {
        seq!['\\', 'n']
    } else if c == '\u{c}' {
        seq!['\\', 'f']
    } else if c == '\u{d}' {
        seq!['\\', 'r']
    } else if c <= '\u{1f}' {
        seq!['\\', 'u', '0', '0'] + hex_byte(c as u8)
    } else {
        seq![c]
    }
}

/// The characters of a JSON string.
pub open spec fn json_chars(text: Seq<char>) -> Seq<char>
    decreases text.len(),
{
    if text.len() == 0 {
        Seq::empty()
    } else {
        json_chars(text.drop_last()) + json_char(text.last())
    }
}

/// A JSON string.
pub open spec fn json_string(text: Seq<char>) -> Seq<char> {
    "\""@ + json_chars(text) + "\""@
}

/// JSON strings with commas between them.
pub open spec fn json_items(texts: Seq<Seq<char>>) -> Seq<char>
    decreases texts.len(),
{
    if texts.len() == 0 {
        Seq::empty()
    } else if texts.len() == 1 {
        json_string(texts[0])
    } else {
        json_items(texts.drop_last()) + ","@ + json_string(texts.last())
    }
}

/// A reference to an artifact: its content identifier, its size, and where to
/// look for it.
#[derive(Debug)]
pub struct ContentRef {
    pub cid: String,
    pub size: u64,
    pub hints: Vec<String>,
}

/// The JSON object of a reference, its names in their order.
pub open spec fn reference_json(reference: ContentRef) -> Seq<char> {
    "{\"cid\":"@ + json_string(reference.cid@) + ",\"hints\":["@ + json_items(
        string_views(reference.hints@),
    ) + "],\"size\":"@ + decimal(reference.size as nat) + "}"@
}

/// The references of a manifest.
#[derive(Debug)]
pub struct SkinReferences {
    pub artpack: Option<ContentRef>,
    pub bodies: Option<ContentRef>,
    pub cardset: ContentRef,
    pub provenance: Option<ContentRef>,
    pub titles: ContentRef,
}

/// The JSON member of an artifact that may be absent, with its comma.
pub open spec fn optional_json(name: Seq<char>, reference: Option<ContentRef>) -> Seq<char> {
    match reference {
        Some(reference) => "\""@ + name + "\":"@ + reference_json(reference) + ","@,
        None => Seq::empty(),
    }
}

/// The canonical JSON of a manifest: no white space, names in their order.
pub open spec fn manifest_json(references: SkinReferences) -> Seq<char> {
    "{"@ + optional_json("artpack"@, references.artpack) + optional_json(
        "bodies"@,
        references.bodies,
    ) + "\"cardset\":"@ + reference_json(references.cardset)
        + ",\"format\":\"deepscry-card-skin\","@ + optional_json(
        "provenance"@,
        references.provenance,
    ) + "\"titles\":"@ + reference_json(references.titles) + ",\"version\":1}"@
}

/// Appends a JSON string.
fn append_json_string(out: &mut Vec<char>, text: &str)
    ensures
        final(out)@ == old(out)@ + json_string(text@),
{
    let ghost start = out@;
    let chars = chars_of(text);
    append_str(out, "\"");
    let mut i: usize = 0;
    assert(out@ =~= start + ("\""@ + json_chars(chars@.take(0))));
    while i < chars.len()
        invariant
            i <= chars@.len(),
            chars@ == text@,
            out@ == start + ("\""@ + json_chars(chars@.take(i as int))),
        decreases chars@.len() - i,
    {
        let c = chars[i];
        let ghost before = out@;
        assert(chars@.take(i + 1).drop_last() =~= chars@.take(i as int));
        if c == '"' {
            out.push('\\');
            out.push('"');
        } else if c == '\\' {
            out.push('\\');
            out.push('\\');
        } else if c == '\u{8}' {
            out.push('\\');
            out.push('b');
        } else if c == '\u{9}' {
            out.push('\\');
            out.push('t');
        } else if c == '\u{a}' {
            out.push('\\');
            out.push('n');
        } else if c == '\u{c}' {
            out.push('\\');
            out.push('f');
        } else if c == '\u{d}' {
            out.push('\\');
            out.push('r');
        } else if c <= '\u{1f}' {
            out.push('\\');
            out.push('u');
            out.push('0');
            out.push('0');
            append_hex_byte(out, c as u8);
        } else {
            out.push(c);
        }
        proof {
            assert(out@ =~= before + json_char(c));
            assert(out@ =~= start + ("\""@ + json_chars(chars@.take(i + 1))));
        }
        i += 1;
    }
    assert(chars@.take(chars@.len() as int) =~= chars@);
    append_str(out, "\"");
    assert(out@ =~= start + json_string(text@));
}

/// Appends JSON strings with commas between them.
fn append_json_items(out: &mut Vec<char>, texts: &Vec<String>)
    ensures
        final(out)@ == old(out)@ + json_items(string_views(texts@)),
{
    let ghost start = out@;
    let ghost all = string_views(texts@);
    let mut i: usize = 0;
    assert(all.take(0) =~= Seq::empty());
    assert(out@ =~= start + json_items(all.take(0)));
    while i < texts.len()
        invariant
            i <= texts@.len(),
            all == string_views(texts@),
            out@ == start + json_items(all.take(i as int)),
        decreases texts@.len() - i,
    {
        let ghost before = out@;
        proof {
            assert(all.take(i + 1).drop_last() =~= all.take(i as int));
            assert(all.take(i + 1).last() == texts@[i as int]@);
        }
        if i > 0 {
            append_str(out, ",");
        }
        append_json_string(out, texts[i].as_str());
        assert(out@ =~= start + json_items(all.take(i + 1)));
        i += 1;
    }
    assert(all.take(all.len() as int) =~= all);
}

/// Appends the JSON object of a reference.
fn append_reference(out: &mut Vec<char>, reference: &ContentRef)
    ensures
        final(out)@ == old(out)@ + reference_json(*reference),
{
    let ghost start = out@;
    append_str(out, "{\"cid\":");
    append_json_string(out, reference.cid.as_str());
    append_str(out, ",\"hints\":[");
    append_json_items(out, &reference.hints);
    append_str(out, "],\"size\":");
    append_decimal(out, reference.size);
    append_str(out, "}");
    assert(out@ =~= start + reference_json(*reference));
}

/// Appends the JSON member of an artifact that may be absent.
fn append_optional(out: &mut Vec<char>, name: &str, reference: &Option<ContentRef>)
    ensures
        final(out)@ == old(out)@ + optional_json(name@, *reference),
{
    let ghost start = out@;
    match reference {
        Some(reference) => {
            append_str(out, "\"");
            append_str(out, name);
            append_str(out, "\":");
            append_reference(out, reference);
            append_str(out, ",");
        },
        None => {},
    }
    assert(out@ =~= start + optional_json(name@, *reference));
}

/// The canonical JSON of a manifest with the given references.
pub fn manifest_document(references: &SkinReferences) -> (out: String)
    ensures
        out@ == manifest_json(*references),
{
    let mut out = chars_of("{");
    append_optional(&mut out, "artpack", &references.artpack);
    append_optional(&mut out, "bodies", &references.bodies);
    append_str(&mut out, "\"cardset\":");
    append_reference(&mut out, &references.cardset);
    append_str(&mut out, ",\"format\":\"deepscry-card-skin\",");
    append_optional(&mut out, "provenance", &references.provenance);
    append_str(&mut out, "\"titles\":");
    append_reference(&mut out, &references.titles);
    append_str(&mut out, ",\"version\":1}");
    string_of(out.as_slice())
}

/// The artifacts and URLs as texts.
pub open spec fn hint_views(hints: Seq<(Member, String)>) -> Seq<(Member, Seq<char>)> {
    Seq::new(hints.len(), |i: int| (hints[i].0, hints[i].1@))
}

/// Reads a hint.
fn read_hint(hint: &str) -> (res: Result<(Member, String), HintError>)
    ensures
        match res {
            Ok((member, url)) => hint_of(hint@) == Ok::<(Member, Seq<char>), ManifestProblem>(
                (member, url@),
            ),
            Err(error) => hint_of(hint@) == Err::<(Member, Seq<char>), ManifestProblem>(
                hint_problem(error),
            ),
        },
{
    let chars = chars_of(hint);
    let (name, url) = match halves(chars.as_slice(), '=') {
        Some(pair) => pair,
        None => {
            return Err(HintError::NoSeparator);
        },
    };
    let member = if reads(name, "artpack") {
        Member::Artpack
    } else if reads(name, "bodies") {
        Member::Bodies
    } else if reads(name, "cardset") {
        Member::Cardset
    } else if reads(name, "provenance") {
        Member::Provenance
    } else if reads(name, "titles") {
        Member::Titles
    } else {
        return Err(HintError::UnknownMember(string_of(name)));
    };
    if has_prefix(url, "https://") || has_prefix(url, "http://") {
        Ok((member, string_of(url)))
    } else {
        Err(HintError::NotAbsolute(string_of(url)))
    }
}

proof fn lemma_first_problem(hints: Seq<Seq<char>>, count: int)
    requires
        0 <= count <= hints.len(),
        hints_of(hints.take(count)) is Err,
    ensures
        hints_of(hints) == hints_of(hints.take(count)),
    decreases hints.len(),
{
    if count == hints.len() {
        assert(hints.take(count) =~= hints);
    } else {
        assert(hints.drop_last().take(count) =~= hints.take(count));
        lemma_first_problem(hints.drop_last(), count);
    }
}

/// Reads the hints.
pub fn parse_hints(hints: &[String]) -> (res: Result<Vec<(Member, String)>, HintError>)
    ensures
        match res {
            Ok(out) => hints_of(string_views(hints@)) == Ok::<
                Seq<(Member, Seq<char>)>,
                ManifestProblem,
            >(hint_views(out@)),
            Err(error) => hints_of(string_views(hints@)) == Err::<
                Seq<(Member, Seq<char>)>,
                ManifestProblem,
            >(hint_problem(error)),
        },
{
    let ghost all = string_views(hints@);
    let mut out: Vec<(Member, String)> = Vec::new();
    let mut i: usize = 0;
    assert(all.take(0) =~= Seq::empty());
    assert(hint_views(out@) =~= Seq::empty());
    while i < hints.len()
        invariant
            i <= hints@.len(),
            all == string_views(hints@),
            hints_of(all.take(i as int)) == Ok::<Seq<(Member, Seq<char>)>, ManifestProblem>(
                hint_views(out@),
            ),
        decreases hints@.len() - i,
    {
        let ghost before = hint_views(out@);
        proof {
            assert(all.take(i + 1).drop_last() =~= all.take(i as int));
            assert(all.take(i + 1).last() == hints@[i as int]@);
        }
        match read_hint(hints[i].as_str()) {
            Ok((member, url)) => {
                let ghost view = (member, url@);
                out.push((member, url));
                assert(hint_views(out@) =~= before.push(view));
            },
            Err(error) => {
                proof {
                    lemma_first_problem(all, i + 1);
                }
                return Err(error);
            },
        }
        i += 1;
    }
    assert(all.take(all.len() as int) =~= all);
    Ok(out)
}

/// The URLs for an artifact.
fn collect_urls(hints: &Vec<(Member, String)>, member: Member) -> (out: Vec<String>)
    ensures
        string_views(out@) == urls_for(hint_views(hints@), member),
{
    let ghost all = hint_views(hints@);
    let mut out: Vec<String> = Vec::new();
    let mut i: usize = 0;
    assert(all.take(0) =~= Seq::empty());
    assert(string_views(out@) =~= Seq::empty());
    while i < hints.len()
        invariant
            i <= hints@.len(),
            all == hint_views(hints@),
            string_views(out@) == urls_for(all.take(i as int), member),
        decreases hints@.len() - i,
    {
        let ghost before = string_views(out@);
        proof {
            assert(all.take(i + 1).drop_last() =~= all.take(i as int));
            assert(all.take(i + 1).last() == (hints@[i as int].0, hints@[i as int].1@));
        }
        if hints[i].0 == member {
            let url = hints[i].1.clone();
            out.push(url);
            assert(string_views(out@) =~= before.push(url@));
        }
        i += 1;
    }
    assert(all.take(all.len() as int) =~= all);
    out
}

/// Whether the reference is the one to the data, with the hints.
pub open spec fn refers_to(reference: ContentRef, data: Seq<u8>, hints: Seq<Seq<char>>) -> bool {
    &&& reference.cid@ == cid_of(data)
    &&& reference.size == data.len()
    &&& string_views(reference.hints@) == hints
}

/// The reference to the data.
pub fn content_ref(data: &[u8], hints: Vec<String>) -> (reference: ContentRef)
    ensures
        refers_to(reference, data@, string_views(hints@)),
{
    ContentRef { cid: cid_for_bytes(data), size: data.len() as u64, hints }
}

/// The artifacts of a skin.
pub struct SkinArtifacts<'a> {
    pub cardset: &'a [u8],
    pub titles: &'a [u8],
    pub bodies: Option<&'a [u8]>,
    pub artpack: Option<&'a [u8]>,
    pub provenance: Option<&'a [u8]>,
}

/// Whether the reference is the one to the artifact, or both are absent.
pub open spec fn may_refer_to(
    reference: Option<ContentRef>,
    data: Option<&[u8]>,
    hints: Seq<Seq<char>>,
) -> bool {
    match (reference, data) {
        (Some(reference), Some(data)) => refers_to(reference, data@, hints),
        (None, None) => true,
        _ => false,
    }
}

/// Whether the references are those to the artifacts, with their hints.
pub open spec fn refer_to(
    references: SkinReferences,
    artifacts: SkinArtifacts,
    hints: Seq<(Member, Seq<char>)>,
) -> bool {
    &&& refers_to(references.cardset, artifacts.cardset@, urls_for(hints, Member::Cardset))
    &&& refers_to(references.titles, artifacts.titles@, urls_for(hints, Member::Titles))
    &&& may_refer_to(references.bodies, artifacts.bodies, urls_for(hints, Member::Bodies))
    &&& may_refer_to(references.artpack, artifacts.artpack, urls_for(hints, Member::Artpack))
    &&& may_refer_to(
        references.provenance,
        artifacts.provenance,
        urls_for(hints, Member::Provenance),
    )
}

/// The first artifact, in the order of their names, that has hints and was
/// not supplied.
pub open spec fn missing_artifact(
    artifacts: SkinArtifacts,
    hints: Seq<(Member, Seq<char>)>,
) -> Option<Member> {
    if artifacts.artpack is None && urls_for(hints, Member::Artpack).len() > 0 {
        Some(Member::Artpack)
    } else if artifacts.bodies is None && urls_for(hints, Member::Bodies).len() > 0 {
        Some(Member::Bodies)
    } else if artifacts.provenance is None && urls_for(hints, Member::Provenance).len() > 0 {
        Some(Member::Provenance)
    } else {
        None
    }
}

/// The reference to an artifact that may be absent.
fn optional_ref(data: Option<&[u8]>, hints: Vec<String>) -> (res: Option<ContentRef>)
    ensures
        may_refer_to(res, data, string_views(hints@)),
{
    match data {
        Some(data) => Some(content_ref(data, hints)),
        None => None,
    }
}

/// Refers to the artifacts of a skin, with the given retrieval hints.
pub fn skin_references(artifacts: &SkinArtifacts, hints: &[String]) -> (res: Result<
    SkinReferences,
    ManifestError,
>)
    ensures
        match res {
            Ok(references) => {
                let read = hints_of(string_views(hints@));
                &&& read is Ok
                &&& missing_artifact(*artifacts, read->Ok_0) is None
                &&& refer_to(references, *artifacts, read->Ok_0)
            },
            Err(error) => match hints_of(string_views(hints@)) {
                Err(problem) => manifest_problem(error) == problem,
                Ok(read) => missing_artifact(*artifacts, read) is Some && manifest_problem(error)
                    == ManifestProblem::MissingArtifact(missing_artifact(*artifacts, read)->0),
            },
        },
{
    let read = match parse_hints(hints) {
        Ok(read) => read,
        Err(error) => {
            return Err(ManifestError::Hint(error));
        },
    };
    let artpack = collect_urls(&read, Member::Artpack);
    let bodies = collect_urls(&read, Member::Bodies);
    let provenance = collect_urls(&read, Member::Provenance);
    proof {
        assert(string_views(artpack@).len() == artpack@.len());
        assert(string_views(bodies@).len() == bodies@.len());
        assert(string_views(provenance@).len() == provenance@.len());
    }
    if artifacts.artpack.is_none() && artpack.len() > 0 {
        return Err(ManifestError::MissingArtifact(Member::Artpack));
    }
    if artifacts.bodies.is_none() && bodies.len() > 0 {
        return Err(ManifestError::MissingArtifact(Member::Bodies));
    }
    if artifacts.provenance.is_none() && provenance.len() > 0 {
        return Err(ManifestError::MissingArtifact(Member::Provenance));
    }
    Ok(
        SkinReferences {
            artpack: optional_ref(artifacts.artpack, artpack),
            bodies: optional_ref(artifacts.bodies, bodies),
            cardset: content_ref(artifacts.cardset, collect_urls(&read, Member::Cardset)),
            provenance: optional_ref(artifacts.provenance, provenance),
            titles: content_ref(artifacts.titles, collect_urls(&read, Member::Titles)),
        },
    )
}

} // verus!
