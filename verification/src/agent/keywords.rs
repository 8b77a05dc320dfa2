//! Which templates hold which keywords, segment by segment.

use crate::agent::parts;
use crate::agent::parts::{PartView, Template, TemplatePart};
use crate::agent::segment_query;
use crate::agent::tokens;
use crate::shared::text;
use vstd::prelude::*;
use vstd::string::*;

verus! {

/// Where keywords stand: the templates of each segment, and words that are known
/// to stand in templates of every segment.
pub struct KeywordMap {
    /// Words with the numbers of the templates that hold them in every segment.
    pub entries: Vec<(String, Vec<u16>)>,
    /// The templates of segments, by the numbers of the segments.
    pub tables: Vec<(u32, Vec<Template>)>,
}

/// What a keyword map says.
#[verifier::ext_equal]
pub struct KeywordView {
    pub words: Map<Seq<char>, Seq<u16>>,
    pub tables: Map<u32, Seq<Seq<PartView>>>,
}

/// The templates found in a segment.
pub struct Finding {
    pub segment: u32,
    pub templates: Seq<Seq<PartView>>,
}

/// What a list of words and template numbers says.
pub open spec fn entries_map(v: Seq<(String, Vec<u16>)>) -> Map<Seq<char>, Seq<u16>>
    decreases v.len(),
{
    if v.len() == 0 {
        Map::empty()
    } else {
        entries_map(v.drop_last()).insert(v.last().0@, v.last().1@)
    }
}

/// What a list of segments and their templates says.
pub open spec fn tables_map(v: Seq<(u32, Vec<Template>)>) -> Map<u32, Seq<Seq<PartView>>>
    decreases v.len(),
{
    if v.len() == 0 {
        Map::empty()
    } else {
        tables_map(v.drop_last()).insert(v.last().0, parts::template_views(v.last().1@))
    }
}

impl View for KeywordMap {
    type V = KeywordView;

    open spec fn view(&self) -> KeywordView {
        KeywordView { words: entries_map(self.entries@), tables: tables_map(self.tables@) }
    }
}

/// A map that knows nothing.
pub open spec fn nothing_known() -> KeywordView {
    KeywordView { words: Map::empty(), tables: Map::empty() }
}

/// The template numbers of a word; none for an unknown word.
pub open spec fn numbers_of(m: Map<Seq<char>, Seq<u16>>, word: Seq<char>) -> Seq<u16> {
    if m.contains_key(word) {
        m[word]
    } else {
        Seq::empty()
    }
}

/// The map after one finding.
pub open spec fn noted(m: KeywordView, f: Finding) -> KeywordView {
    KeywordView { words: m.words, tables: m.tables.insert(f.segment, f.templates) }
}

/// The map after all findings.
pub open spec fn all_noted(m: KeywordView, fs: Seq<Finding>) -> KeywordView
    decreases fs.len(),
{
    if fs.len() == 0 {
        m
    } else {
        noted(all_noted(m, fs.drop_last()), fs.last())
    }
}

pub proof fn lemma_all_noted_concat(m: KeywordView, a: Seq<Finding>, b: Seq<Finding>)
    ensures
        all_noted(m, a + b) == all_noted(all_noted(m, a), b),
    decreases b.len(),
{
    if b.len() == 0 {
        assert(a + b =~= a);
    } else {
        lemma_all_noted_concat(m, a, b.drop_last());
        assert((a + b).drop_last() =~= a + b.drop_last());
        assert((a + b).last() == b.last());
    }
}

/// The map after a single finding.
pub proof fn lemma_one_noted(m: KeywordView, f: Finding)
    ensures
        all_noted(m, seq![f]) == noted(m, f),
{
    assert(seq![f].drop_last() =~= Seq::<Finding>::empty());
    assert(all_noted(m, Seq::<Finding>::empty()) == m);
}

// ---------- templates and messages ----------

/// The template has a slot.
pub open spec fn has_slot(t: Seq<PartView>) -> bool {
    exists|j: int| 0 <= j < t.len() && #[trigger] t[j] is Param
}

/// The texts of the template, one after the other.
pub open spec fn joined(t: Seq<PartView>) -> Seq<char>
    decreases t.len(),
{
    if t.len() == 0 {
        Seq::empty()
    } else {
        joined(t.drop_last()) + match t.last() {
            PartView::Literal(s) => s,
            PartView::Param => Seq::empty(),
        }
    }
}

/// A message of the template may hold the keyword: anything can stand in a slot;
/// without slots the message is the text of the template.
pub open spec fn may_match(t: Seq<PartView>, keyword: Seq<char>) -> bool {
    has_slot(t) || text::contains_text(joined(t), keyword)
}

/// The texts fill the template: its fixed texts stand in their places.
pub open spec fn fills(t: Seq<PartView>, texts: Seq<Seq<char>>) -> bool {
    &&& texts.len() == t.len()
    &&& forall|j: int|
        0 <= j < t.len() ==> (#[trigger] t[j] matches PartView::Literal(s) ==> texts[j] == s)
}

/// The message is the template with its slots filled.
pub open spec fn is_message_of(t: Seq<PartView>, message: Seq<char>) -> bool {
    exists|texts: Seq<Seq<char>>| #[trigger] fills(t, texts) && message == tokens::concat(texts)
}

proof fn lemma_text_around(a: Seq<char>, s: Seq<char>, b: Seq<char>, needle: Seq<char>)
    requires
        text::contains_text(s, needle),
    ensures
        text::contains_text(a + s + b, needle),
{
    let i: int = choose|i: int| #[trigger] text::occurs_at(s, needle, i);
    let all: Seq<char> = a + s + b;
    assert(all.subrange(a.len() + i, a.len() + i + needle.len()) =~= s.subrange(
        i,
        i + needle.len(),
    ));
    assert(text::occurs_at(all, needle, a.len() + i));
}

proof fn lemma_token_in_text(ts: Seq<Seq<char>>, x: int, needle: Seq<char>)
    requires
        0 <= x < ts.len(),
        text::contains_text(ts[x], needle),
    ensures
        text::contains_text(tokens::concat(ts), needle),
    decreases ts.len(),
{
    let none: Seq<char> = Seq::empty();
    let front: Seq<char> = tokens::concat(ts.drop_last());
    if x < ts.len() - 1 {
        assert(ts.drop_last()[x] == ts[x]);
        lemma_token_in_text(ts.drop_last(), x, needle);
        lemma_text_around(none, front, ts.last(), needle);
        assert(none + front + ts.last() =~= front + ts.last());
    } else {
        lemma_text_around(front, ts.last(), none, needle);
        assert(front + ts.last() + none =~= front + ts.last());
    }
}

proof fn lemma_joined(t: Seq<PartView>, texts: Seq<Seq<char>>)
    requires
        fills(t, texts),
        !has_slot(t),
    ensures
        tokens::concat(texts) == joined(t),
    decreases t.len(),
{
    if t.len() > 0 {
        let u: Seq<PartView> = t.drop_last();
        assert forall|j: int| 0 <= j < u.len() implies (#[trigger] u[j] matches PartView::Literal(s)
            ==> texts.drop_last()[j] == s) by {
            assert(t[j] == u[j]);
        }
        if has_slot(u) {
            let j: int = choose|j: int| 0 <= j < u.len() && #[trigger] u[j] is Param;
            assert(t[j] is Param);
        }
        lemma_joined(u, texts.drop_last());
        assert(!(t[t.len() - 1] is Param));
    }
}

/// A message that holds a keyword belongs to a template that may match it.
pub proof fn law_match_allowed(t: Seq<PartView>, message: Seq<char>, keyword: Seq<char>)
    requires
        is_message_of(t, message),
        text::contains_text(message, keyword),
    ensures
        may_match(t, keyword),
{
    let texts = choose|texts: Seq<Seq<char>>| #[trigger]
        fills(t, texts) && message == tokens::concat(texts);
    if !has_slot(t) {
        lemma_joined(t, texts);
    }
}

/// A message holds every keyword that a text of its template holds.
pub proof fn law_message_holds_template(t: Seq<PartView>, message: Seq<char>, keyword: Seq<char>)
    requires
        is_message_of(t, message),
        segment_query::template_holds(t, keyword),
    ensures
        text::contains_text(message, keyword),
{
    let texts = choose|texts: Seq<Seq<char>>| #[trigger]
        fills(t, texts) && message == tokens::concat(texts);
    let x: int = choose|x: int|
        0 <= x < t.len() && segment_query::part_holds(#[trigger] t[x], keyword);
    lemma_token_in_text(texts, x, keyword);
}

/// The texts of the template, and one text in all its slots.
pub open spec fn filled(t: Seq<PartView>, s: Seq<char>) -> Seq<Seq<char>> {
    Seq::new(
        t.len(),
        |j: int|
            match t[j] {
                PartView::Literal(x) => x,
                PartView::Param => s,
            },
    )
}

/// A template may match a keyword exactly where some message of it holds the
/// keyword.
pub proof fn law_may_match(t: Seq<PartView>, keyword: Seq<char>)
    ensures
        may_match(t, keyword) <==> exists|message: Seq<char>| #[trigger]
            is_message_of(t, message) && text::contains_text(message, keyword),
{
    if may_match(t, keyword) {
        let texts: Seq<Seq<char>> = filled(t, keyword);
        let message: Seq<char> = tokens::concat(texts);
        assert(fills(t, texts));
        if has_slot(t) {
            let j: int = choose|j: int| 0 <= j < t.len() && #[trigger] t[j] is Param;
            assert(texts[j] == keyword);
            assert(keyword.subrange(0, keyword.len() as int) =~= keyword);
            assert(text::occurs_at(keyword, keyword, 0));
            lemma_token_in_text(texts, j, keyword);
        } else {
            lemma_joined(t, texts);
        }
        assert(is_message_of(t, message) && text::contains_text(message, keyword));
    }
    if exists|message: Seq<char>| #[trigger]
        is_message_of(t, message) && text::contains_text(message, keyword) {
        let message: Seq<char> = choose|message: Seq<char>| #[trigger]
            is_message_of(t, message) && text::contains_text(message, keyword);
        law_match_allowed(t, message, keyword);
    }
}

/// Whether a message of the template may hold the keyword.
pub fn template_may_match(t: &Template, keyword: &[char]) -> (r: bool)
    ensures
        r == may_match(parts::part_views(t.parts@), keyword@),
{
    let ghost pv = parts::part_views(t.parts@);
    let mut all: Vec<char> = Vec::new();
    let mut j: usize = 0;
    assert(pv.take(0) =~= Seq::<PartView>::empty());
    while j < t.parts.len()
        invariant
            j <= t.parts@.len(),
            pv == parts::part_views(t.parts@),
            all@ == joined(pv.take(j as int)),
            forall|k: int| 0 <= k < j ==> !(#[trigger] pv[k] is Param),
        decreases t.parts@.len() - j,
    {
        assert(pv[j as int] == t.parts@[j as int]@);
        assert(pv.take(j + 1).drop_last() =~= pv.take(j as int));
        match &t.parts[j] {
            TemplatePart::Literal(s) => {
                let mut cs: Vec<char> = text::chars_of(s.as_str());
                let ghost before = all@;
                let ghost added = cs@;
                all.append(&mut cs);
                assert(all@ =~= before + added);
            },
            TemplatePart::Param => {
                assert(pv[j as int] is Param);
                return true;
            },
        }
        j += 1;
    }
    assert(pv.take(j as int) =~= pv);
    text::find_text(&all, keyword).is_some()
}

/// The words of the entries are all different.
pub open spec fn entries_distinct(v: Seq<(String, Vec<u16>)>) -> bool {
    forall|i: int, j: int|
        0 <= i < j < v.len() ==> (#[trigger] v[i]).0@ != (#[trigger] v[j]).0@
}

proof fn lemma_entries_map(v: Seq<(String, Vec<u16>)>, i: int)
    requires
        entries_distinct(v),
        0 <= i < v.len(),
    ensures
        entries_map(v).contains_key(v[i].0@),
        entries_map(v)[v[i].0@] == v[i].1@,
    decreases v.len(),
{
    let t: Seq<(String, Vec<u16>)> = v.drop_last();
    if i < t.len() {
        assert forall|a: int, b: int| 0 <= a < b < t.len() implies (#[trigger] t[a]).0@ != (
        #[trigger] t[b]).0@ by {
            assert(v[a].0@ != v[b].0@);
        }
        lemma_entries_map(t, i);
        assert(t[i] == v[i]);
        assert(v[i].0@ != v[v.len() - 1].0@);
    }
}

proof fn lemma_entries_absent(v: Seq<(String, Vec<u16>)>, word: Seq<char>)
    requires
        forall|i: int| 0 <= i < v.len() ==> (#[trigger] v[i]).0@ != word,
    ensures
        !entries_map(v).contains_key(word),
    decreases v.len(),
{
    if v.len() > 0 {
        let t: Seq<(String, Vec<u16>)> = v.drop_last();
        assert forall|i: int| 0 <= i < t.len() implies (#[trigger] t[i]).0@ != word by {
            assert(v[i].0@ != word);
        }
        lemma_entries_absent(t, word);
        assert(v[v.len() - 1].0@ != word);
    }
}

proof fn lemma_entries_update(v: Seq<(String, Vec<u16>)>, i: int, e: (String, Vec<u16>))
    requires
        entries_distinct(v),
        0 <= i < v.len(),
        e.0@ == v[i].0@,
    ensures
        entries_distinct(v.update(i, e)),
        entries_map(v.update(i, e)) == entries_map(v).insert(e.0@, e.1@),
    decreases v.len(),
{
    let u: Seq<(String, Vec<u16>)> = v.update(i, e);
    assert forall|a: int, b: int| 0 <= a < b < u.len() implies (#[trigger] u[a]).0@ != (
    #[trigger] u[b]).0@ by {
        assert(v[a].0@ != v[b].0@);
    }
    let t: Seq<(String, Vec<u16>)> = v.drop_last();
    if i < t.len() {
        assert forall|a: int, b: int| 0 <= a < b < t.len() implies (#[trigger] t[a]).0@ != (
        #[trigger] t[b]).0@ by {
            assert(v[a].0@ != v[b].0@);
        }
        lemma_entries_update(t, i, e);
        assert(u.drop_last() =~= t.update(i, e));
        assert(u.last() == v.last());
        assert(v[i].0@ != v[v.len() - 1].0@);
        assert(entries_map(u) =~= entries_map(v).insert(e.0@, e.1@));
    } else {
        assert(u.drop_last() =~= t);
        assert(entries_map(u) =~= entries_map(v).insert(e.0@, e.1@));
    }
}

proof fn lemma_tables_update(v: Seq<(u32, Vec<Template>)>, i: int, e: (u32, Vec<Template>))
    requires
        0 <= i < v.len(),
        e.0 == v[i].0,
        forall|k: int| i < k < v.len() ==> (#[trigger] v[k]).0 != e.0,
    ensures
        tables_map(v.update(i, e)) == tables_map(v).insert(e.0, parts::template_views(e.1@)),
    decreases v.len(),
{
    let u: Seq<(u32, Vec<Template>)> = v.update(i, e);
    let t: Seq<(u32, Vec<Template>)> = v.drop_last();
    if i < t.len() {
        assert forall|k: int| i < k < t.len() implies (#[trigger] t[k]).0 != e.0 by {
            assert(v[k].0 != e.0);
        }
        lemma_tables_update(t, i, e);
        assert(u.drop_last() =~= t.update(i, e));
        assert(u.last() == v.last());
        assert(v[v.len() - 1].0 != e.0);
        assert(tables_map(u) =~= tables_map(v).insert(e.0, parts::template_views(e.1@)));
    } else {
        assert(u.drop_last() =~= t);
        assert(tables_map(u) =~= tables_map(v).insert(e.0, parts::template_views(e.1@)));
    }
}

impl KeywordMap {
    /// No word stands in two entries.
    pub open spec fn wf(self) -> bool {
        entries_distinct(self.entries@)
    }

    /// A map that knows nothing.
    pub fn new() -> (r: Self)
        ensures
            r.wf(),
            r@ == nothing_known(),
    {
        KeywordMap { entries: Vec::new(), tables: Vec::new() }
    }

    /// Whether nothing is known.
    pub fn is_empty(&self) -> (r: bool)
        requires
            self.wf(),
        ensures
            r == (self@ == nothing_known()),
    {
        proof {
            if self.entries@.len() > 0 {
                lemma_entries_map(self.entries@, 0);
                assert(self@.words.contains_key(self.entries@[0].0@));
            }
            if self.tables@.len() > 0 {
                assert(self@.tables.contains_key(self.tables@.last().0));
            }
        }
        self.entries.len() == 0 && self.tables.len() == 0
    }

    fn position(&self, word: &str) -> (r: Option<usize>)
        requires
            self.wf(),
        ensures
            match r {
                Some(i) => i < self.entries@.len() && self.entries@[i as int].0@ == word@
                    && self@.words.contains_key(word@) && self@.words[word@] == self.entries@[i as int].1@,
                None => !self@.words.contains_key(word@) && forall|k: int|
                    0 <= k < self.entries@.len() ==> (#[trigger] self.entries@[k]).0@ != word@,
            },
    {
        let mut i: usize = 0;
        while i < self.entries.len()
            invariant
                self.wf(),
                i <= self.entries@.len(),
                forall|k: int| 0 <= k < i ==> (#[trigger] self.entries@[k]).0@ != word@,
            decreases self.entries@.len() - i,
        {
            if text::same_text(self.entries[i].0.as_str(), word) {
                proof {
                    lemma_entries_map(self.entries@, i as int);
                }
                return Some(i);
            }
            i += 1;
        }
        proof {
            lemma_entries_absent(self.entries@, word@);
        }
        None
    }

    /// The template numbers of a word that is known for every segment.
    pub fn get(&self, word: &str) -> (r: Option<&Vec<u16>>)
        requires
            self.wf(),
        ensures
            match r {
                Some(v) => self@.words.contains_key(word@) && self@.words[word@] == v@,
                None => !self@.words.contains_key(word@),
            },
    {
        match self.position(word) {
            None => None,
            Some(i) => Some(&self.entries[i].1),
        }
    }

    /// Sets the template numbers of a word for every segment.
    pub fn insert(&mut self, word: String, numbers: Vec<u16>)
        requires
            old(self).wf(),
        ensures
            final(self).wf(),
            final(self)@.words == old(self)@.words.insert(word@, numbers@),
            final(self)@.tables == old(self)@.tables,
    {
        let ghost before = self.entries@;
        match self.position(word.as_str()) {
            None => {
                let ghost e = (word, numbers);
                self.entries.push((word, numbers));
                proof {
                    assert(self.entries@.drop_last() =~= before);
                    assert forall|a: int, b: int| 0 <= a < b < self.entries@.len() implies (
                    #[trigger] self.entries@[a]).0@ != (#[trigger] self.entries@[b]).0@ by {
                        assert(before[a].0@ != e.0@);
                        if b < before.len() {
                            assert(before[a].0@ != before[b].0@);
                        }
                    }
                }
            },
            Some(i) => {
                let ghost e = (word, numbers);
                self.entries.set(i, (word, numbers));
                proof {
                    lemma_entries_update(before, i as int, e);
                }
            },
        }
    }

    /// The templates of a segment.
    pub fn table(&self, segment: u32) -> (r: Option<&Vec<Template>>)
        ensures
            match r {
                Some(v) => self@.tables.contains_key(segment) && self@.tables[segment]
                    == parts::template_views(v@),
                None => !self@.tables.contains_key(segment),
            },
    {
        match self.table_position(segment) {
            None => None,
            Some(i) => Some(&self.tables[i].1),
        }
    }

    fn table_position(&self, segment: u32) -> (r: Option<usize>)
        ensures
            match r {
                Some(i) => {
                    &&& i < self.tables@.len()
                    &&& self.tables@[i as int].0 == segment
                    &&& forall|k: int|
                        i < k < self.tables@.len() ==> (#[trigger] self.tables@[k]).0 != segment
                    &&& self@.tables.contains_key(segment)
                    &&& self@.tables[segment] == parts::template_views(self.tables@[i as int].1@)
                },
                None => !self@.tables.contains_key(segment),
            },
    {
        let ghost v = self.tables@;
        let mut i: usize = self.tables.len();
        assert(v.take(v.len() as int) =~= v);
        while i > 0
            invariant
                i <= self.tables@.len(),
                v == self.tables@,
                forall|k: int| i <= k < v.len() ==> (#[trigger] v[k]).0 != segment,
                tables_map(v).contains_key(segment) == tables_map(v.take(i as int)).contains_key(
                    segment,
                ),
                tables_map(v).contains_key(segment) ==> tables_map(v)[segment] == tables_map(
                    v.take(i as int),
                )[segment],
            decreases i,
        {
            i -= 1;
            assert(v.take(i + 1).drop_last() =~= v.take(i as int));
            assert(v.take(i + 1).last() == v[i as int]);
            if self.tables[i].0 == segment {
                return Some(i);
            }
        }
        assert(v.take(0) =~= Seq::<(u32, Vec<Template>)>::empty());
        None
    }

    /// Notes the templates of a segment.
    pub fn learn(&mut self, segment: u32, templates: Vec<Template>)
        requires
            old(self).wf(),
        ensures
            final(self).wf(),
            final(self)@ == noted(
                old(self)@,
                (Finding { segment, templates: parts::template_views(templates@) }),
            ),
    {
        let ghost before = self.tables@;
        let ghost e = (segment, templates);
        match self.table_position(segment) {
            None => {
                self.tables.push((segment, templates));
                assert(self.tables@.drop_last() =~= before);
            },
            Some(i) => {
                self.tables.set(i, (segment, templates));
                proof {
                    lemma_tables_update(before, i as int, e);
                }
            },
        }
    }
}

} // verus!
