//! Anchor extraction and link classification: the href targets of a page's
//! anchor elements, filtered down to relative paths, with a diagnostic
//! fallback when none are relative.

use vstd::prelude::*;

verus! {

/// The href attribute values of the anchor elements of an HTML document, in
/// document order, under browser-lenient parsing. The result depends on the
/// document text alone; stating it in full would restate the HTML parser,
/// so it is only named here.
pub uninterp spec fn anchor_hrefs_of(html: Seq<char>) -> Seq<Seq<char>>;

/// Relies on scraper's `Html::parse_document`, `Html::select` and
/// `Element::attr`: parses the document leniently and collects the `href`
/// of every anchor element in document order; anchors without an `href`
/// contribute nothing.
#[verifier::external_body]
fn extract_anchor_hrefs(html: &str) -> (r: Vec<String>)
    ensures
        r.deep_view() == anchor_hrefs_of(html@),
{
    let document = scraper::Html::parse_document(html);
    let selector = scraper::Selector::parse("a").expect("the anchor selector is well-formed");
    document
        .select(&selector)
        .filter_map(|element| element.value().attr("href").map(str::to_owned))
        .collect()
}

/// The href targets of the document's anchor elements, in document order.
pub fn find_anchor_tags(html: &str) -> (r: Vec<String>)
    ensures
        r.deep_view() == anchor_hrefs_of(html@),
{
    extract_anchor_hrefs(html)
}

/// Whether a link target is a relative path: root-relative (`/…`) or
/// relative traversal (`./…`, `../…`); deliberately broader than a strict
/// relative-URL grammar.
pub open spec fn is_relative(t: Seq<char>) -> bool {
    t.len() > 0 && (t[0] == '/' || t[0] == '.')
}

/// The relative link targets from position `i` on, in order.
pub open spec fn relative_from(tags: Seq<Seq<char>>, i: int) -> Seq<Seq<char>>
    decreases tags.len() - i,
{
    if i < 0 || i >= tags.len() {
        Seq::empty()
    } else if is_relative(tags[i]) {
        seq![tags[i]] + relative_from(tags, i + 1)
    } else {
        relative_from(tags, i + 1)
    }
}

/// A link target in double quotes.
pub open spec fn quoted(t: Seq<char>) -> Seq<char> {
    "\""@ + t + "\""@
}

/// The quoted link targets from position `i` on, separated by commas.
pub open spec fn list_items_text(tags: Seq<Seq<char>>, i: int) -> Seq<char>
    decreases tags.len() - i,
{
    if i < 0 || i >= tags.len() {
        Seq::empty()
    } else if i == tags.len() - 1 {
        quoted(tags[i])
    } else {
        quoted(tags[i]) + ", "@ + list_items_text(tags, i + 1)
    }
}

/// The diagnostic line reported when no relative path was found: it embeds
/// every extracted link target.
pub open spec fn no_relative_message(tags: Seq<Seq<char>>) -> Seq<char> {
    "No relative paths found in ["@ + list_items_text(tags, 0) + "]"@
}

/// What the classifier hands back for a list of link targets: the relative
/// ones when there are any, and otherwise the diagnostic line followed by
/// every target unchanged.
pub open spec fn classified_links(tags: Seq<Seq<char>>) -> Seq<Seq<char>> {
    if relative_from(tags, 0).len() > 0 {
        relative_from(tags, 0)
    } else {
        seq![no_relative_message(tags)] + tags
    }
}

/// A classification outcome: either the non-empty list of relative paths,
/// or a degraded result carrying a diagnostic line beside the raw targets.
pub enum LinkClassification {
    Relative(Vec<String>),
    Degraded { diagnostic: String, raw: Vec<String> },
}

/// The diagnostic line for a target list without relative paths.
fn no_relative_paths_message(tags: &Vec<String>) -> (r: String)
    ensures
        r@ == no_relative_message(tags.deep_view()),
{
    let ghost tv = tags.deep_view();
    let mut m = String::new();
    m.append("No relative paths found in [");
    let mut i: usize = 0;
    while i < tags.len()
        invariant
            i <= tags@.len(),
            tv == tags.deep_view(),
            tv.len() == tags@.len(),
            no_relative_message(tv) == m@ + list_items_text(tv, i as int) + "]"@,
        decreases tags@.len() - i,
    {
        let ghost before = m@;
        m.append("\"");
        m.append(tags[i].as_str());
        m.append("\"");
        proof {
            assert(tv[i as int] == tags@[i as int]@);
            assert(m@ =~= before + quoted(tv[i as int]));
        }
        if i + 1 < tags.len() {
            m.append(", ");
            proof {
                assert(m@ =~= before + quoted(tv[i as int]) + ", "@);
                assert(no_relative_message(tv) =~= m@ + list_items_text(tv, i + 1) + "]"@);
            }
        } else {
            proof {
                assert(no_relative_message(tv) =~= m@ + list_items_text(tv, i + 1) + "]"@);
            }
        }
        i = i + 1;
    }
    m.append("]");
    proof {
        assert(m@ =~= no_relative_message(tv));
    }
    m
}

/// Splits the extracted link targets into the classification result that
/// `classified_links` describes, under a named variant: `Relative` when at
/// least one target is a relative path, `Degraded` otherwise.
pub fn classify_paths(anchor_tags: Vec<String>) -> (r: LinkClassification)
    ensures
        ({
            let tags = anchor_tags.deep_view();
            match r {
                LinkClassification::Relative(rel) => relative_from(tags, 0).len() > 0
                    && rel.deep_view() == relative_from(tags, 0),
                LinkClassification::Degraded { diagnostic, raw } => relative_from(tags, 0).len()
                    == 0 && diagnostic@ == no_relative_message(tags) && raw.deep_view() == tags,
            }
        }),
{
    let ghost tags = anchor_tags.deep_view();
    let mut filtered: Vec<String> = Vec::new();
    let mut i: usize = 0;
    while i < anchor_tags.len()
        invariant
            i <= anchor_tags@.len(),
            tags == anchor_tags.deep_view(),
            tags.len() == anchor_tags@.len(),
            filtered.deep_view() + relative_from(tags, i as int) =~= relative_from(tags, 0),
        decreases anchor_tags@.len() - i,
    {
        let t = &anchor_tags[i];
        let ghost fv = filtered.deep_view();
        proof {
            assert(tags[i as int] == anchor_tags@[i as int]@);
        }
        let relative = if t.unicode_len() == 0 {
            false
        } else {
            let c = t.as_str().get_char(0);
            c == '/' || c == '.'
        };
        if relative {
            filtered.push(t.clone());
            proof {
                assert(filtered.deep_view() =~= fv.push(tags[i as int]));
                assert(filtered.deep_view() + relative_from(tags, i + 1) =~= relative_from(
                    tags,
                    0,
                ));
            }
        } else {
            proof {
                assert(relative_from(tags, i as int) == relative_from(tags, i + 1));
            }
        }
        i = i + 1;
    }
    proof {
        assert(relative_from(tags, i as int) == Seq::<Seq<char>>::empty());
        assert(filtered.deep_view() =~= relative_from(tags, 0));
    }
    if filtered.len() > 0 {
        proof {
            assert(filtered.deep_view().len() == filtered@.len());
        }
        LinkClassification::Relative(filtered)
    } else {
        proof {
            assert(filtered.deep_view().len() == filtered@.len());
        }
        let diagnostic = no_relative_paths_message(&anchor_tags);
        LinkClassification::Degraded { diagnostic, raw: anchor_tags }
    }
}

/// The classification result as one flat list, in the shape callers of the
/// original pipeline observe: the relative targets when there are any, and
/// otherwise the diagnostic line followed by every target unchanged.
pub fn filter_relative_paths(anchor_tags: Vec<String>) -> (r: Vec<String>)
    ensures
        r.deep_view() == classified_links(anchor_tags.deep_view()),
{
    let ghost tags = anchor_tags.deep_view();
    match classify_paths(anchor_tags) {
        LinkClassification::Relative(rel) => rel,
        LinkClassification::Degraded { diagnostic, raw } => {
            let mut out: Vec<String> = Vec::new();
            out.push(diagnostic);
            let ghost base = out.deep_view();
            let mut j: usize = 0;
            while j < raw.len()
                invariant
                    j <= raw@.len(),
                    base.len() == 1,
                    base[0] == no_relative_message(tags),
                    raw.deep_view() == tags,
                    tags.len() == raw@.len(),
                    out.deep_view() =~= base + tags.subrange(0, j as int),
                decreases raw@.len() - j,
            {
                let ghost ov = out.deep_view();
                out.push(raw[j].clone());
                proof {
                    assert(tags[j as int] == raw@[j as int]@);
                    assert(out.deep_view() =~= ov.push(tags[j as int]));
                    assert(out.deep_view() =~= base + tags.subrange(0, j + 1));
                }
                j = j + 1;
            }
            proof {
                assert(tags.subrange(0, tags.len() as int) =~= tags);
                assert(out.deep_view() =~= seq![no_relative_message(tags)] + tags);
            }
            out
        },
    }
}

} // verus!
