use vstd::prelude::*;
use crate::error::ModDataErr;

verus! {

/// Sections of a locale file, as ini's reader yields them in file order: the
/// section name (none for keys before the first header) and its key/value pairs.
pub type Sections = Vec<(Option<String>, Vec<(String, String)>)>;

/// The plain-text content of parsed sections.
pub open spec fn sections_view(s: Seq<(Option<String>, Vec<(String, String)>)>) -> Seq<
    (Option<Seq<char>>, Seq<(Seq<char>, Seq<char>)>),
> {
    s.map_values(
        |sec: (Option<String>, Vec<(String, String)>)|
            (
                match sec.0 {
                    Some(n) => Some(n@),
                    None => None,
                },
                sec.1@.map_values(|kv: (String, String)| (kv.0@, kv.1@)),
            ),
    )
}

/// What ini's no-escape reader makes of a text: its sections, or `None` where it
/// rejects the text.
pub uninterp spec fn ini_sections_of(text: Seq<char>) -> Option<
    Seq<(Option<Seq<char>>, Seq<(Seq<char>, Seq<char>)>)>,
>;

/// Relies on `ini::Ini::load_from_str_noescape` and on iterating its sections and
/// their properties; the outcome depends on the text alone.
#[verifier::external_body]
fn read_ini_sections(text: &str) -> (r: Option<Sections>)
    ensures
        match r {
            Some(s) => ini_sections_of(text@) == Some(sections_view(s@)),
            None => ini_sections_of(text@) is None,
        },
{
    let ini = ini::Ini::load_from_str_noescape(text).ok()?;
    Some(ini.iter().map(|(section, props)| (
        section.map(|n| n.to_string()),
        props.iter().map(|(k, v)| (k.to_string(), v.to_string())).collect(),
    )).collect())
}

/// The mapping that a list of entries stands for: a later entry for a key
/// overrides an earlier one.
pub open spec fn entries_map(entries: Seq<(String, String)>) -> Map<Seq<char>, Seq<char>>
    decreases entries.len(),
{
    if entries.len() == 0 {
        Map::empty()
    } else {
        entries_map(entries.drop_last()).insert(entries.last().0@, entries.last().1@)
    }
}

/// The mapping after adding every property of the named sections of `secs` under
/// the key `"<section>.<key>"`; properties outside a section are skipped.
pub open spec fn with_sections(
    m: Map<Seq<char>, Seq<char>>,
    secs: Seq<(Option<Seq<char>>, Seq<(Seq<char>, Seq<char>)>)>,
) -> Map<Seq<char>, Seq<char>>
    decreases secs.len(),
{
    if secs.len() == 0 {
        m
    } else {
        let before = with_sections(m, secs.drop_last());
        match secs.last().0 {
            Some(name) => with_properties(before, name, secs.last().1),
            None => before,
        }
    }
}

pub open spec fn with_properties(
    m: Map<Seq<char>, Seq<char>>,
    section: Seq<char>,
    props: Seq<(Seq<char>, Seq<char>)>,
) -> Map<Seq<char>, Seq<char>>
    decreases props.len(),
{
    if props.len() == 0 {
        m
    } else {
        with_properties(m, section, props.drop_last()).insert(
            section + seq!['.'] + props.last().0,
            props.last().1,
        )
    }
}

proof fn lemma_entries_map_tail(s: Seq<(String, String)>, i: int, key: Seq<char>)
    requires
        0 <= i <= s.len(),
        forall|p: int| i <= p < s.len() ==> (#[trigger] s[p]).0@ != key,
    ensures
        entries_map(s).contains_key(key) == entries_map(s.take(i)).contains_key(key),
        entries_map(s)[key] == entries_map(s.take(i))[key],
    decreases s.len(),
{
    if s.len() == i {
        assert(s.take(i) =~= s);
    } else {
        lemma_entries_map_tail(s.drop_last(), i, key);
        assert(s.drop_last().take(i) =~= s.take(i));
    }
}

/// Whether two strings hold the same characters.
fn same_text(a: &str, b: &str) -> (r: bool)
    ensures
        r == (a@ == b@),
{
    let n = a.unicode_len();
    if n != b.unicode_len() {
        return false;
    }
    let mut k: usize = 0;
    while k < n
        invariant
            n == a@.len(),
            n == b@.len(),
            k <= n,
            forall|j: int| 0 <= j < k ==> a@[j] == b@[j],
        decreases n - k,
    {
        if a.get_char(k) != b.get_char(k) {
            return false;
        }
        k += 1;
    }
    assert(a@ =~= b@);
    true
}

/// Localised text by `"<category>.<key>"`.
#[derive(Debug)]
pub struct LocaleHandler {
    entries: Vec<(String, String)>,
}

impl View for LocaleHandler {
    type V = Map<Seq<char>, Seq<char>>;

    closed spec fn view(&self) -> Map<Seq<char>, Seq<char>> {
        entries_map(self.entries@)
    }
}

impl LocaleHandler {
    pub fn new() -> (r: Self)
        ensures
            r@ == Map::<Seq<char>, Seq<char>>::empty(),
    {
        LocaleHandler { entries: Vec::new() }
    }

    /// Sets the text of `key`.
    pub fn insert(&mut self, key: String, value: String)
        ensures
            final(self)@ == old(self)@.insert(key@, value@),
    {
        self.entries.push((key, value));
        assert(self.entries@.drop_last() =~= old(self).entries@);
    }

    /// The text of `key`, if there is one.
    pub fn get(&self, key: &str) -> (r: Option<&String>)
        ensures
            match r {
                Some(v) => self@.contains_key(key@) && self@[key@] == v@,
                None => !self@.contains_key(key@),
            },
    {
        let mut i: usize = self.entries.len();
        while i > 0
            invariant
                i <= self.entries@.len(),
                forall|p: int| i <= p < self.entries@.len() ==> (#[trigger] self.entries@[p]).0@ != key@,
            decreases i,
        {
            if same_text(self.entries[i - 1].0.as_str(), key) {
                proof {
                    lemma_entries_map_tail(self.entries@, i as int, key@);
                    assert(self.entries@.take(i as int).drop_last() =~= self.entries@.take(i - 1));
                }
                return Some(&self.entries[i - 1].1);
            }
            i -= 1;
        }
        proof {
            lemma_entries_map_tail(self.entries@, 0, key@);
        }
        None
    }

    /// Adds the entries of a locale file: each property `key` of section `cat`
    /// under `"cat.key"`; properties outside a section are skipped. Fails, leaving
    /// the entries as they were, where the text is not a valid ini file.
    pub fn append_from_str(&mut self, text: &str) -> (r: Result<(), ModDataErr>)
        ensures
            match ini_sections_of(text@) {
                Some(secs) => r is Ok && final(self)@ == with_sections(old(self)@, secs),
                None => r == Err::<(), ModDataErr>(ModDataErr::MalformedLocale) && final(self)@
                    == old(self)@,
            },
    {
        let sections = match read_ini_sections(text) {
            Some(s) => s,
            None => {
                return Err(ModDataErr::MalformedLocale);
            },
        };
        let ghost start = self@;
        let ghost secs = sections_view(sections@);
        let mut i: usize = 0;
        while i < sections.len()
            invariant
                i <= sections@.len(),
                secs == sections_view(sections@),
                self@ == with_sections(start, secs.take(i as int)),
            decreases sections@.len() - i,
        {
            assert(secs.take(i + 1).drop_last() =~= secs.take(i as int));
            let (section, props) = &sections[i];
            match section {
                Some(name) => {
                    let ghost before = self@;
                    let ghost pv = secs[i as int].1;
                    let mut j: usize = 0;
                    while j < props.len()
                        invariant
                            j <= props@.len(),
                            pv == props@.map_values(|kv: (String, String)| (kv.0@, kv.1@)),
                            self@ == with_properties(before, name@, pv.take(j as int)),
                        decreases props@.len() - j,
                    {
                        assert(pv.take(j + 1).drop_last() =~= pv.take(j as int));
                        let key = name.clone().concat(".").concat(props[j].0.as_str());
                        proof {
                            reveal_strlit(".");
                            assert(key@ =~= name@ + seq!['.'] + props@[j as int].0@);
                            assert(pv[j as int] == (props@[j as int].0@, props@[j as int].1@));
                        }
                        self.insert(key, props[j].1.clone());
                        j += 1;
                    }
                    assert(pv.take(j as int) =~= pv);
                },
                None => {},
            }
            i += 1;
        }
        assert(secs.take(i as int) =~= secs);
        Ok(())
    }
}

/// Locale strings of one file, by `"<category>.<key>"`.
pub struct LocaleFile {
    entries: Vec<(String, String)>,
}

} // verus!
