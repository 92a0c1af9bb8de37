//! Tagged error handling: errors name their variant with a stable tag, and a
//! handler table picks the handler registered for a failure's tag.
use vstd::prelude::*;

use crate::text::{chars_equal, str_chars};

verus! {

/// An error type that can be tagged for pattern matching.
///
/// Implement this trait on error enums; tags should be stable and unique per variant.
pub trait TaggedError {
    /// A string tag identifying the error variant.
    fn tag(&self) -> &'static str;
}

/// Handlers registered by tag, in registration order.
pub struct TagHandler<H> {
    handlers: Vec<(&'static str, H)>,
}

/// The tags and handlers, in registration order.
pub open spec fn entries_view<H>(entries: Seq<(&'static str, H)>) -> Seq<(Seq<char>, H)> {
    entries.map_values(|e: (&'static str, H)| (e.0@, e.1))
}

impl<H> View for TagHandler<H> {
    type V = Seq<(Seq<char>, H)>;

    closed spec fn view(&self) -> Seq<(Seq<char>, H)> {
        entries_view(self.handlers@)
    }
}

/// The handler of the first entry registered for `tag`, if any.
pub open spec fn first_handler<H>(entries: Seq<(Seq<char>, H)>, tag: Seq<char>) -> Option<H>
    decreases entries.len(),
{
    if entries.len() == 0 {
        None
    } else if entries[0].0 == tag {
        Some(entries[0].1)
    } else {
        first_handler(entries.drop_first(), tag)
    }
}

impl<H> TagHandler<H> {
    /// A table with no handlers.
    pub fn new() -> (t: Self)
        ensures
            t@ == Seq::<(Seq<char>, H)>::empty(),
    {
        let t = TagHandler { handlers: Vec::new() };
        proof {
            assert(t@ =~= Seq::<(Seq<char>, H)>::empty());
        }
        t
    }

    /// Registers a handler for errors with the given tag.
    pub fn on(self, tag: &'static str, handler: H) -> (t: Self)
        ensures
            t@ == self@.push((tag@, handler)),
    {
        let mut handlers = self.handlers;
        let ghost before = handlers@;
        handlers.push((tag, handler));
        let t = TagHandler { handlers };
        proof {
            assert(t@ =~= entries_view(before).push((tag@, handler)));
        }
        t
    }

    /// Takes the handler for a failure tagged `tag`: the first one registered
    /// for that tag. `None` means the failure is passed on unchanged.
    pub fn take_handler(self, tag: &str) -> (r: Option<H>)
        ensures
            r == first_handler(self@, tag@),
    {
        let ghost all = self@;
        let mut handlers = self.handlers;
        let want = str_chars(tag);
        let total: usize = handlers.len();
        let mut skipped: usize = 0;
        proof {
            assert(entries_view(handlers@) =~= all.skip(0));
        }
        while handlers.len() > 0
            invariant
                skipped + handlers@.len() == total,
                total == all.len(),
                all == self@,
                entries_view(handlers@) == all.skip(skipped as int),
                first_handler(all, tag@) == first_handler(all.skip(skipped as int), tag@),
                want@ == tag@,
            decreases handlers@.len(),
        {
            let ghost rest = handlers@;
            let ghost entries = all.skip(skipped as int);
            let (t, h) = handlers.remove(0);
            proof {
                assert(entries.len() > 0);
                assert(entries[0] == entries_view(rest)[0]);
                assert(entries[0] == (t@, h));
                assert(entries.drop_first() =~= all.skip(skipped + 1));
                assert(entries_view(handlers@) =~= entries_view(rest).drop_first());
            }
            if chars_equal(&want, t) {
                proof {
                    assert(first_handler(entries, tag@) == Some(h));
                }
                return Some(h);
            }
            proof {
                assert(first_handler(entries, tag@) == first_handler(entries.drop_first(), tag@));
            }
            skipped = skipped + 1;
        }
        None
    }
}

// ---------------------------------------------------------------------------
// Laws.

/// Registering another handler never overrides an earlier registration for
/// the same tag; it only answers a tag that had no handler yet.
pub proof fn law_earlier_registration_wins<H>(entries: Seq<(Seq<char>, H)>, t: Seq<char>, h: H, tag: Seq<char>)
    ensures
        first_handler(entries.push((t, h)), tag) == match first_handler(entries, tag) {
            Some(g) => Some(g),
            None => if t == tag {
                Some(h)
            } else {
                None
            },
        },
    decreases entries.len(),
{
    let pushed = entries.push((t, h));
    if entries.len() > 0 {
        assert(pushed[0] == entries[0]);
        assert(pushed.drop_first() =~= entries.drop_first().push((t, h)));
        law_earlier_registration_wins(entries.drop_first(), t, h, tag);
    } else {
        assert(pushed[0] == (t, h));
        assert(pushed.drop_first() =~= Seq::<(Seq<char>, H)>::empty());
        assert(first_handler(pushed.drop_first(), tag) is None);
    }
}

} // verus!
