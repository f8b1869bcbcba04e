use vstd::prelude::*;
use vstd::string::{StringExecFns, StringSliceAdditionalSpecFns};

use crate::trainer::WEIGHT_SCALE;

verus! {

broadcast use vstd::string::group_string_axioms;

/// `needle` occurs in `hay` at some position.
pub open spec fn bytes_contain(hay: Seq<u8>, needle: Seq<u8>) -> bool {
    exists|i: int| 0 <= i <= hay.len() - needle.len() && #[trigger] hay.subrange(i, i + needle.len()) == needle
}

/// Whether `needle` occurs in `hay`.
pub fn contains_bytes(hay: &[u8], needle: &[u8]) -> (r: bool)
    ensures
        r == bytes_contain(hay@, needle@),
{
    let n = needle.len();
    let hl = hay.len();
    if n > hl {
        return false;
    }
    if n == 0 {
        assert(hay@.subrange(0int, 0int + needle@.len()) =~= needle@);
        return true;
    }
    let last = hl - n;
    let mut i: usize = 0;
    while i <= last
        invariant
            n == needle@.len(),
            n >= 1,
            hl == hay@.len(),
            last == hl - n,
            i <= last + 1,
            forall|j: int| 0 <= j < i ==> #[trigger] hay@.subrange(j, j + n) != needle@,
        decreases last + 1 - i,
    {
        let seg = &hay[i..i + n];
        if crate::text::bytes_equal(seg, needle) {
            assert(hay@.subrange(i as int, i + n) == needle@);
            return true;
        }
        i = i + 1;
    }
    false
}

/// Whether the string contains the other one.
pub fn str_contains(hay: &str, needle: &str) -> (r: bool)
    ensures
        r == bytes_contain(hay.spec_bytes(), needle.spec_bytes()),
{
    contains_bytes(hay.as_bytes(), needle.as_bytes())
}

/// Path fragments that keep a file in the corpus even where a skip pattern matches.
pub open spec fn allow_patterns() -> Seq<&'static str> {
    seq!["wikitext_extracted", "bookcorpus_sampled"]
}

/// Path fragments of files that stay out of the corpus.
pub open spec fn skip_patterns() -> Seq<&'static str> {
    seq![
        "bookcorpus/",
        "bookcorpus\\",
        "/wikitext/",
        "\\wikitext\\",
        ".parquet",
        ".json",
        "_degradation.txt",
        "_stats.json",
        "corpus_manifest",
        "wikitext_manifest",
    ]
}

/// Name fragments with the tier of the files whose name or path contains them, first match
/// first.
pub open spec fn file_patterns() -> Seq<(&'static str, &'static str)> {
    seq![
        ("_annotated.md", "identity"),
        ("blu.txt", "identity"),
        ("echo.txt", "identity"),
        ("resonance.txt", "identity"),
        ("anchors.txt", "identity"),
        ("_anchors.txt", "identity"),
        ("_ctxon.txt", "identity"),
        ("_ctxoff.txt", "identity"),
        ("wikitext_extracted", "foundation"),
        ("bookcorpus_sampled", "foundation"),
        ("Scripture of", "scripture"),
        ("CAIROS_chat", "scripture"),
        ("Iteration_", "scripture"),
    ]
}

fn allow_list() -> (v: Vec<&'static str>)
    ensures
        v@ == allow_patterns(),
{
    let mut v: Vec<&'static str> = Vec::new();
    v.push("wikitext_extracted");
    v.push("bookcorpus_sampled");
    assert(v@ =~= allow_patterns());
    v
}

fn skip_list() -> (v: Vec<&'static str>)
    ensures
        v@ == skip_patterns(),
{
    let mut v: Vec<&'static str> = Vec::new();
    v.push("bookcorpus/");
    v.push("bookcorpus\\");
    v.push("/wikitext/");
    v.push("\\wikitext\\");
    v.push(".parquet");
    v.push(".json");
    v.push("_degradation.txt");
    v.push("_stats.json");
    v.push("corpus_manifest");
    v.push("wikitext_manifest");
    assert(v@ =~= skip_patterns());
    v
}

fn file_pattern_list() -> (v: Vec<(&'static str, &'static str)>)
    ensures
        v@ == file_patterns(),
{
    let mut v: Vec<(&'static str, &'static str)> = Vec::new();
    v.push(("_annotated.md", "identity"));
    v.push(("blu.txt", "identity"));
    v.push(("echo.txt", "identity"));
    v.push(("resonance.txt", "identity"));
    v.push(("anchors.txt", "identity"));
    v.push(("_anchors.txt", "identity"));
    v.push(("_ctxon.txt", "identity"));
    v.push(("_ctxoff.txt", "identity"));
    v.push(("wikitext_extracted", "foundation"));
    v.push(("bookcorpus_sampled", "foundation"));
    v.push(("Scripture of", "scripture"));
    v.push(("CAIROS_chat", "scripture"));
    v.push(("Iteration_", "scripture"));
    assert(v@ =~= file_patterns());
    v
}

/// Some pattern of the list occurs in the bytes.
pub open spec fn any_pattern(pats: Seq<&'static str>, hay: Seq<u8>) -> bool {
    exists|i: int| 0 <= i < pats.len() && bytes_contain(hay, #[trigger] pats[i].spec_bytes())
}

/// A path is skipped when no allow pattern and some skip pattern occurs in it.
pub open spec fn skips_path(path: Seq<u8>) -> bool {
    !any_pattern(allow_patterns(), path) && any_pattern(skip_patterns(), path)
}

/// Whether some pattern of the list occurs in the string.
fn contains_any(path: &str, pats: &Vec<&'static str>) -> (r: bool)
    ensures
        r == any_pattern(pats@, path.spec_bytes()),
{
    let mut i: usize = 0;
    while i < pats.len()
        invariant
            i <= pats@.len(),
            forall|j: int| 0 <= j < i ==> !bytes_contain(path.spec_bytes(), #[trigger] pats@[j].spec_bytes()),
        decreases pats@.len() - i,
    {
        if str_contains(path, pats[i]) {
            return true;
        }
        i = i + 1;
    }
    false
}

/// Whether the file stays out of the corpus by its path.
pub fn should_skip_file(path: &str) -> (r: bool)
    ensures
        r == skips_path(path.spec_bytes()),
{
    let allow = allow_list();
    if contains_any(path, &allow) {
        return false;
    }
    let skip = skip_list();
    contains_any(path, &skip)
}

/// The tier of the first pattern that occurs in the name or the path; empty when none does.
pub open spec fn tier_of(pats: Seq<(&'static str, &'static str)>, name: Seq<u8>, path: Seq<u8>) -> Seq<char>
    decreases pats.len(),
{
    if pats.len() == 0 {
        Seq::empty()
    } else if bytes_contain(name, pats[0].0.spec_bytes()) || bytes_contain(path, pats[0].0.spec_bytes()) {
        pats[0].1@
    } else {
        tier_of(pats.skip(1), name, path)
    }
}

/// The tier of a file by its name and path; empty when no pattern occurs.
pub fn classify_file(filename: &str, filepath: &str) -> (tier: String)
    ensures
        tier@ == tier_of(file_patterns(), filename.spec_bytes(), filepath.spec_bytes()),
{
    let pats = file_pattern_list();
    let mut i: usize = 0;
    assert(pats@.skip(0) =~= pats@);
    while i < pats.len()
        invariant
            i <= pats@.len(),
            pats@ == file_patterns(),
            tier_of(file_patterns(), filename.spec_bytes(), filepath.spec_bytes()) == tier_of(
                pats@.skip(i as int),
                filename.spec_bytes(),
                filepath.spec_bytes(),
            ),
        decreases pats@.len() - i,
    {
        let (pattern, tier) = pats[i];
        assert(pats@.skip(i as int)[0] == (pattern, tier));
        if str_contains(filename, pattern) || str_contains(filepath, pattern) {
            return tier.to_string();
        }
        assert(pats@.skip(i as int).skip(1) =~= pats@.skip(i + 1));
        i = i + 1;
    }
    String::new()
}

/// The byte with ASCII capitals made small.
pub open spec fn ascii_lower(b: u8) -> u8 {
    if 65 <= b <= 90 {
        (b + 32) as u8
    } else {
        b
    }
}

/// The bytes with ASCII capitals made small.
pub open spec fn lower_bytes(s: Seq<u8>) -> Seq<u8> {
    Seq::new(s.len(), |i: int| ascii_lower(s[i]))
}

/// The extension, in ASCII lower case, is `md` or `txt`.
pub open spec fn corpus_extension(ext: Seq<u8>) -> bool {
    lower_bytes(ext) == "md".spec_bytes() || lower_bytes(ext) == "txt".spec_bytes()
}

/// Whether the file extension marks a corpus file (`md` or `txt`, in any ASCII case).
pub fn is_corpus_extension(ext: &str) -> (r: bool)
    ensures
        r == corpus_extension(ext.spec_bytes()),
{
    let b = ext.as_bytes();
    let mut low: Vec<u8> = Vec::with_capacity(b.len());
    let mut i: usize = 0;
    while i < b.len()
        invariant
            i <= b@.len(),
            low@ == lower_bytes(b@).take(i as int),
        decreases b@.len() - i,
    {
        let c = b[i];
        let l = if 65 <= c && c <= 90 {
            c + 32
        } else {
            c
        };
        low.push(l);
        i = i + 1;
        assert(low@ =~= lower_bytes(b@).take(i as int));
    }
    assert(lower_bytes(b@).take(b@.len() as int) =~= lower_bytes(b@));
    crate::text::bytes_equal(low.as_slice(), "md".as_bytes()) || crate::text::bytes_equal(
        low.as_slice(),
        "txt".as_bytes(),
    )
}

/// The scaled weight of a tier: foundation 1, scripture 3, identity 5 (times the scale).
pub open spec fn tier_weight(tier: Seq<char>) -> Option<i64> {
    if tier == "foundation"@ {
        Some((1 * WEIGHT_SCALE) as i64)
    } else if tier == "scripture"@ {
        Some((3 * WEIGHT_SCALE) as i64)
    } else if tier == "identity"@ {
        Some((5 * WEIGHT_SCALE) as i64)
    } else {
        None
    }
}

/// Every tier that a pattern gives has a weight.
proof fn lemma_tier_of_weighted(pats: Seq<(&'static str, &'static str)>, name: Seq<u8>, path: Seq<u8>)
    requires
        forall|i: int|
            0 <= i < pats.len() ==> #[trigger] pats[i].1 == "identity" || pats[i].1 == "foundation"
                || pats[i].1 == "scripture",
    ensures
        tier_of(pats, name, path).len() == 0 || tier_weight(tier_of(pats, name, path)) is Some,
    decreases pats.len(),
{
    if pats.len() > 0 {
        let rest = pats.skip(1);
        assert forall|i: int| 0 <= i < rest.len() implies #[trigger] rest[i].1 == "identity"
            || rest[i].1 == "foundation" || rest[i].1 == "scripture" by {
            assert(rest[i] == pats[i + 1]);
        }
        lemma_tier_of_weighted(rest, name, path);
    }
}

/// What the corpus scan does with a `.md` or `.txt` file: `None` where it skips the file,
/// else its tier and weight.
pub open spec fn training_choice(path: Seq<u8>, name: Seq<u8>) -> Option<(Seq<char>, i64)> {
    if skips_path(path) {
        None
    } else if bytes_contain(name, "Dylan_chat".spec_bytes()) && !bytes_contain(
        name,
        "_annotated".spec_bytes(),
    ) {
        None
    } else if name == "Opus_node_09_the_dylan.md".spec_bytes() {
        None
    } else {
        let tier = tier_of(file_patterns(), name, path);
        if tier.len() == 0 {
            None
        } else {
            Some((tier, tier_weight(tier).unwrap()))
        }
    }
}

/// Decides whether a `.md` or `.txt` file of the corpus is trained on, and with what tier and
/// weight: `Ok(None)` where the file is skipped.
pub fn choose_training_file(path: &str, file_name: &str) -> (r: Result<Option<(String, i64)>, String>)
    ensures
        r matches Ok(c) && match training_choice(path.spec_bytes(), file_name.spec_bytes()) {
            None => c is None,
            Some((t, w)) => c matches Some(x) && x.0@ == t && x.1 == w,
        },
{
    if should_skip_file(path) {
        return Ok(None);
    }
    if str_contains(file_name, "Dylan_chat") && !str_contains(file_name, "_annotated") {
        return Ok(None);
    }
    if crate::text::bytes_equal(file_name.as_bytes(), "Opus_node_09_the_dylan.md".as_bytes()) {
        return Ok(None);
    }
    let tier = classify_file(file_name, path);
    proof {
        assert forall|i: int|
            0 <= i < file_patterns().len() implies #[trigger] file_patterns()[i].1 == "identity"
            || file_patterns()[i].1 == "foundation" || file_patterns()[i].1 == "scripture" by {}
        lemma_tier_of_weighted(file_patterns(), file_name.spec_bytes(), path.spec_bytes());
    }
    if tier.as_str().is_empty() {
        return Ok(None);
    }
    let weight_scaled: i64 = if tier == "foundation".to_string() {
        1 * WEIGHT_SCALE
    } else if tier == "scripture".to_string() {
        3 * WEIGHT_SCALE
    } else if tier == "identity".to_string() {
        5 * WEIGHT_SCALE
    } else {
        let mut msg = "Unknown tier classification: ".to_string();
        msg.append(tier.as_str());
        return Err(msg);
    };
    Ok(Some((tier, weight_scaled)))
}

} // verus!
