//! The caption template catalog: named looks together with the segmentation
//! rules and highlighting that suit them. The catalog is the validation and
//! UI source of truth, so no shell hard-codes a preset list.

use vstd::prelude::*;

use crate::text::{chars_of, string_of};

use super::group::chars_eq;
use super::highlight::CaptionHighlightMode;
use super::layout::{default_layout_spec, layout_valid, CaptionLayout};

verus! {

/// One caption template: its id and label, the line budget the look reads
/// well at, and the highlight it plays with.
pub struct CaptionTemplateSpec {
    pub id: String,
    pub label: String,
    /// Characters per line this look reads well at.
    pub max_chars_per_line: u16,
    pub max_lines: u8,
    /// The highlight this template plays with, if any.
    pub highlight: Option<CaptionHighlightMode>,
}

/// How many templates the catalog holds.
pub open spec fn template_count() -> int {
    6
}

/// The id of catalog entry `i`.
pub open spec fn template_id(i: int) -> Seq<char> {
    if i == 0 {
        seq!['c', 'l', 'e', 'a', 'n']
    } else if i == 1 {
        seq!['b', 'o', 'l', 'd', '_', 'b', 'o', 'x']
    } else if i == 2 {
        seq!['k', 'a', 'r', 'a', 'o', 'k', 'e', '_', 'p', 'o', 'p']
    } else if i == 3 {
        seq!['g', 'l', 'o', 'w']
    } else if i == 4 {
        seq!['o', 'u', 't', 'l', 'i', 'n', 'e']
    } else {
        seq!['m', 'u', 'l', 't', 'i', 'l', 'i', 'n', 'e']
    }
}

/// The line budget and highlight of catalog entry `i`.
pub open spec fn template_rules(i: int) -> (u16, u8, Option<CaptionHighlightMode>) {
    if i == 0 {
        (32, 2, None)
    } else if i == 1 {
        (28, 2, None)
    } else if i == 2 {
        (24, 1, Some(CaptionHighlightMode::Word))
    } else if i == 3 {
        (30, 2, None)
    } else if i == 4 {
        (20, 1, Some(CaptionHighlightMode::Word))
    } else {
        (40, 3, None)
    }
}

/// The catalog entry whose id is `id`, if any.
pub open spec fn template_index(id: Seq<char>) -> Option<int> {
    if id == template_id(0) {
        Some(0)
    } else if id == template_id(1) {
        Some(1)
    } else if id == template_id(2) {
        Some(2)
    } else if id == template_id(3) {
        Some(3)
    } else if id == template_id(4) {
        Some(4)
    } else if id == template_id(5) {
        Some(5)
    } else {
        None
    }
}

/// The segmentation rules of catalog entry `i`: the default rules with the
/// template's line budget.
pub open spec fn template_layout(i: int) -> CaptionLayout {
    CaptionLayout {
        max_chars_per_line: template_rules(i).0,
        max_lines: template_rules(i).1,
        ..default_layout_spec()
    }
}

/// The label catalog entry `i` shows in the template picker.
pub open spec fn template_label_text(i: int) -> Seq<char> {
    if i == 0 {
        seq!['C', 'l', 'e', 'a', 'n']
    } else if i == 1 {
        seq!['B', 'o', 'l', 'd', ' ', 'b', 'o', 'x']
    } else if i == 2 {
        seq!['K', 'a', 'r', 'a', 'o', 'k', 'e', ' ', 'p', 'o', 'p']
    } else if i == 3 {
        seq!['G', 'l', 'o', 'w']
    } else if i == 4 {
        seq!['O', 'u', 't', 'l', 'i', 'n', 'e']
    } else {
        seq!['M', 'u', 'l', 't', 'i', 'l', 'i', 'n', 'e']
    }
}

/// The label of catalog entry `i`.
fn template_label(i: usize) -> (r: Vec<char>)
    requires
        i < 6,
    ensures
        r@ == template_label_text(i as int),
{
    let r = if i == 0 {
        vec!['C', 'l', 'e', 'a', 'n']
    } else if i == 1 {
        vec!['B', 'o', 'l', 'd', ' ', 'b', 'o', 'x']
    } else if i == 2 {
        vec!['K', 'a', 'r', 'a', 'o', 'k', 'e', ' ', 'p', 'o', 'p']
    } else if i == 3 {
        vec!['G', 'l', 'o', 'w']
    } else if i == 4 {
        vec!['O', 'u', 't', 'l', 'i', 'n', 'e']
    } else {
        vec!['M', 'u', 'l', 't', 'i', 'l', 'i', 'n', 'e']
    };
    assert(r@ =~= template_label_text(i as int));
    r
}

/// Catalog entry `i`.
fn template_entry(i: usize) -> (t: CaptionTemplateSpec)
    requires
        i < 6,
    ensures
        t.id@ == template_id(i as int),
        t.label@ == template_label_text(i as int),
        (t.max_chars_per_line, t.max_lines, t.highlight) == template_rules(i as int),
{
    let id = if i == 0 {
        vec!['c', 'l', 'e', 'a', 'n']
    } else if i == 1 {
        vec!['b', 'o', 'l', 'd', '_', 'b', 'o', 'x']
    } else if i == 2 {
        vec!['k', 'a', 'r', 'a', 'o', 'k', 'e', '_', 'p', 'o', 'p']
    } else if i == 3 {
        vec!['g', 'l', 'o', 'w']
    } else if i == 4 {
        vec!['o', 'u', 't', 'l', 'i', 'n', 'e']
    } else {
        vec!['m', 'u', 'l', 't', 'i', 'l', 'i', 'n', 'e']
    };
    assert(id@ =~= template_id(i as int));
    let (chars, lines, highlight): (u16, u8, Option<CaptionHighlightMode>) = if i == 0 {
        (32, 2, None)
    } else if i == 1 {
        (28, 2, None)
    } else if i == 2 {
        (24, 1, Some(CaptionHighlightMode::Word))
    } else if i == 3 {
        (30, 2, None)
    } else if i == 4 {
        (20, 1, Some(CaptionHighlightMode::Word))
    } else {
        (40, 3, None)
    };
    CaptionTemplateSpec {
        id: string_of(id.as_slice()),
        label: string_of(template_label(i).as_slice()),
        max_chars_per_line: chars,
        max_lines: lines,
        highlight,
    }
}

/// Every caption template, in UI browsing order.
pub fn caption_template_catalog() -> (r: Vec<CaptionTemplateSpec>)
    ensures
        r@.len() == template_count(),
        forall|i: int|
            0 <= i < r@.len() ==> (#[trigger] r@[i]).id@ == template_id(i) && r@[i].label@
                == template_label_text(i) && (
                r@[i].max_chars_per_line,
                r@[i].max_lines,
                r@[i].highlight,
            ) == template_rules(i),
{
    let mut out: Vec<CaptionTemplateSpec> = Vec::new();
    let mut i: usize = 0;
    while i < 6
        invariant
            i <= 6,
            out@.len() == i,
            forall|j: int|
                0 <= j < i ==> (#[trigger] out@[j]).id@ == template_id(j) && out@[j].label@
                    == template_label_text(j) && (
                    out@[j].max_chars_per_line,
                    out@[j].max_lines,
                    out@[j].highlight,
                ) == template_rules(j),
        decreases 6 - i,
    {
        out.push(template_entry(i));
        i += 1;
    }
    out
}

/// The catalog entry for `id`, or `None`.
pub fn caption_template_spec(id: &str) -> (r: Option<CaptionTemplateSpec>)
    ensures
        match template_index(id@) {
            Some(i) => r matches Some(t) && t.id@ == id@ && t.label@ == template_label_text(i) && (
                t.max_chars_per_line,
                t.max_lines,
                t.highlight,
            ) == template_rules(i),
            None => r is None,
        },
{
    let wanted = chars_of(id);
    let mut i: usize = 0;
    while i < 6
        invariant
            i <= 6,
            wanted@ == id@,
            forall|j: int| 0 <= j < i ==> template_id(j) != id@,
        decreases 6 - i,
    {
        let entry = template_entry(i);
        let entry_id = chars_of(entry.id.as_str());
        if chars_eq(&entry_id, &wanted) {
            assert(template_index(id@) == Some(i as int));
            return Some(entry);
        }
        i += 1;
    }
    None
}

impl CaptionTemplateSpec {
    /// The segmentation rules this look reads well at: the default rules
    /// with the template's line budget.
    pub fn layout(&self) -> (l: CaptionLayout)
        ensures
            l == (CaptionLayout {
                max_chars_per_line: self.max_chars_per_line,
                max_lines: self.max_lines,
                ..default_layout_spec()
            }),
    {
        CaptionLayout { max_chars_per_line: self.max_chars_per_line, max_lines: self.max_lines, ..CaptionLayout::default_layout() }
    }
}

/// Every catalog entry's rules are usable.
pub proof fn lemma_template_layouts_valid(i: int)
    requires
        0 <= i < template_count(),
    ensures
        layout_valid(template_layout(i)),
{
}

} // verus!
