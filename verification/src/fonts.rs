//! The names of the fonts that are loaded.
//!
//! The cache gives every loaded font a slot. The caller keeps the font itself
//! under that slot and loads a font only where the cache does not hold its
//! name yet.

use crate::config::{MeterConfig, WidgetLayout};
use vstd::prelude::*;

verus! {

/// No name occurs twice in `names`.
pub open spec fn distinct(names: Seq<Seq<char>>) -> bool {
    forall|i: int, j: int| 0 <= i < j < names.len() ==> names[i] != names[j]
}

/// Why a font is not in the cache.
#[derive(Clone, Copy, Debug, PartialEq, Eq, Structural)]
pub enum FontError {
    /// The font could not be read or is no font.
    Unreadable,
}

/// The fonts that are loaded, by name.
pub struct FontCache {
    names: Vec<String>,
}

impl FontCache {
    /// The names of the loaded fonts; a font's place in the list is its slot.
    pub closed spec fn names(&self) -> Seq<Seq<char>> {
        Seq::new(self.names.len() as nat, |i: int| self.names[i]@)
    }

    /// No font is in the cache twice.
    pub open spec fn wf(&self) -> bool {
        distinct(self.names())
    }

    /// The font of the given name is loaded.
    pub open spec fn holds(&self, name: Seq<char>) -> bool {
        self.names().contains(name)
    }

    /// A cache without fonts.
    pub fn new() -> (cache: FontCache)
        ensures
            cache.wf(),
            cache.names() == Seq::<Seq<char>>::empty(),
    {
        let cache = FontCache { names: Vec::new() };
        assert(cache.names() =~= Seq::<Seq<char>>::empty());
        cache
    }

    /// Number of loaded fonts.
    pub fn len(&self) -> (n: usize)
        ensures
            n == self.names().len(),
    {
        self.names.len()
    }

    /// The slot of the font with the given name, if it is loaded.
    pub fn lookup(&self, name: &String) -> (slot: Option<usize>)
        ensures
            slot.is_some() == self.holds(name@),
            slot matches Some(i) ==> i < self.names().len() && self.names()[i as int] == name@
                && forall|j: int| 0 <= j < i ==> self.names()[j] != name@,
    {
        let mut i: usize = 0;
        while i < self.names.len()
            invariant
                i <= self.names.len(),
                forall|j: int| 0 <= j < i ==> self.names()[j] != name@,
            decreases self.names.len() - i,
        {
            if self.names[i] == *name {
                assert(self.names()[i as int] == name@);
                return Some(i);
            }
            i = i + 1;
        }
        None
    }

    /// Whether the font of the given name is loaded.
    pub fn contains(&self, name: &String) -> (held: bool)
        ensures
            held == self.holds(name@),
    {
        self.lookup(name).is_some()
    }

    /// Takes in the outcome of loading the font `name`. A font that the cache
    /// holds already keeps its slot and the cache stays as it is, whatever
    /// the outcome says. Otherwise a font that was loaded gets the next slot,
    /// and one that was not is an error.
    pub fn enter(&mut self, name: String, loaded: bool) -> (slot: Result<usize, FontError>)
        requires
            old(self).wf(),
        ensures
            final(self).wf(),
            old(self).holds(name@) ==> final(self).names() == old(self).names() && slot is Ok,
            !old(self).holds(name@) && loaded ==> final(self).names() == old(self).names().push(
                name@,
            ) && slot == Ok::<usize, FontError>(old(self).names().len() as usize),
            !old(self).holds(name@) && !loaded ==> final(self).names() == old(self).names()
                && slot == Err::<usize, FontError>(FontError::Unreadable),
            slot matches Ok(i) ==> i < final(self).names().len() && final(self).names()[i as int]
                == name@,
    {
        match self.lookup(&name) {
            Some(i) => Ok(i),
            None => {
                if loaded {
                    let slot = self.names.len();
                    self.names.push(name);
                    assert(self.names() =~= old(self).names().push(name@));
                    Ok(slot)
                } else {
                    Err(FontError::Unreadable)
                }
            },
        }
    }
}

/// The names of the fonts that the text widgets of `configs` are set in, each
/// once, in the order in which the widgets first refer to them.
pub open spec fn font_names(configs: Seq<MeterConfig>) -> Seq<Seq<char>>
    decreases configs.len(),
{
    if configs.len() == 0 {
        Seq::empty()
    } else {
        let front = font_names(configs.drop_last());
        match configs.last().layout {
            WidgetLayout::Text(text) => if front.contains(text.font@) {
                front
            } else {
                front.push(text.font@)
            },
            WidgetLayout::Graph(_) => front,
        }
    }
}

/// However many widgets refer to a font, its name is in `font_names` once;
/// the font of every text widget is in it, and nothing else is.
pub proof fn lemma_font_names(configs: Seq<MeterConfig>)
    ensures
        distinct(font_names(configs)),
        forall|i: int|
            0 <= i < configs.len() ==> (#[trigger] configs[i].layout matches WidgetLayout::Text(
                text,
            ) ==> font_names(configs).contains(text.font@)),
        forall|name: Seq<char>| #[trigger]
            font_names(configs).contains(name) ==> exists|i: int|
                0 <= i < configs.len() && (#[trigger] configs[i].layout matches WidgetLayout::Text(
                    text,
                ) && text.font@ == name),
    decreases configs.len(),
{
    if configs.len() > 0 {
        let rest = configs.drop_last();
        let front = font_names(rest);
        let all = font_names(configs);
        lemma_font_names(rest);
        assert forall|i: int| 0 <= i < configs.len() implies (
        #[trigger] configs[i].layout matches WidgetLayout::Text(text) ==> all.contains(
            text.font@,
        )) by {
            if let WidgetLayout::Text(text) = configs[i].layout {
                if i < configs.len() - 1 {
                    assert(rest[i] == configs[i]);
                    assert(front.contains(text.font@));
                    let k = choose|k: int| 0 <= k < front.len() && front[k] == text.font@;
                    assert(all[k] == text.font@);
                } else {
                    if front.contains(text.font@) {
                    } else {
                        assert(all[front.len() as int] == text.font@);
                    }
                }
            }
        }
        assert forall|name: Seq<char>| #[trigger] all.contains(name) implies exists|i: int|
            0 <= i < configs.len() && (#[trigger] configs[i].layout matches WidgetLayout::Text(
                text,
            ) && text.font@ == name) by {
            let k = choose|k: int| 0 <= k < all.len() && all[k] == name;
            if k < front.len() {
                assert(front[k] == name);
                assert(front.contains(name));
                let i = choose|i: int|
                    0 <= i < rest.len() && (#[trigger] rest[i].layout matches WidgetLayout::Text(
                        text,
                    ) && text.font@ == name);
                assert(configs[i] == rest[i]);
            } else {
                assert(configs[configs.len() - 1] == configs.last());
            }
        }
    }
}

/// The fonts to load for `configs`: the name of every font that a text widget
/// is set in, each once.
pub fn fonts_to_load(configs: &Vec<MeterConfig>) -> (names: Vec<String>)
    ensures
        names.len() == font_names(configs@).len(),
        forall|i: int| 0 <= i < names.len() ==> (#[trigger] names[i])@ == font_names(configs@)[i],
{
    let mut found = FontCache::new();
    let mut i: usize = 0;
    while i < configs.len()
        invariant
            i <= configs.len(),
            found.wf(),
            found.names() == font_names(configs@.subrange(0, i as int)),
        decreases configs.len() - i,
    {
        assert(configs@.subrange(0, i + 1).drop_last() =~= configs@.subrange(0, i as int));
        assert(configs@.subrange(0, i + 1).last() == configs@[i as int]);
        match &configs[i].layout {
            WidgetLayout::Text(text) => {
                proof {
                    lemma_font_names(configs@.subrange(0, i + 1));
                }
                let _ = found.enter(text.font.clone(), true);
            },
            WidgetLayout::Graph(_) => {},
        }
        i = i + 1;
    }
    assert(configs@.subrange(0, i as int) =~= configs@);
    found.names
}

} // verus!
