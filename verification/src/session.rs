//! The tab/document state machine: a registry of open documents keyed by
//! title, the open order of the tabs, and the active selection. Every
//! operation keeps the session well formed: keys are unique, the open order
//! lists exactly the open documents, and the active key, when set, names an
//! open document.

use vstd::prelude::*;

use crate::naming::{lemma_untitled_key_injective, untitled_key, untitled_title};
use crate::text::{match_count, replace_matches, replaced, str_equal, trim_text, trimmed, count_matches};

verus! {

/// One open text buffer and its metadata.
pub struct Document {
    /// Unique identifier in the session; always equals `title`.
    pub key: String,
    /// Human-readable display name.
    pub title: String,
    /// Filesystem location the buffer is bound to; absent for a new,
    /// never-saved document.
    pub source_path: Option<String>,
    /// The text buffer.
    pub content: String,
    /// Classification label derived once when the document was opened;
    /// deliberately never recomputed, not even on rename.
    pub language_hint: Option<String>,
}

/// A multi-document editing session. The position of a document in `docs`
/// is its tab position: the registry and the open order are two views of
/// the one sequence, which is what makes orphans impossible.
pub struct Session {
    /// The open documents, in tab display order.
    pub docs: Vec<Document>,
    /// The key of the focused document, if any.
    pub active: Option<String>,
    /// Counter for auto-generated titles; strictly increasing, never reused.
    pub next_untitled: usize,
}

/// The document that opening a file named `name` with text `content` and
/// classification `hint` produces: keyed by the file name, bound to `path`.
pub open spec fn opened_doc(
    d: Document,
    name: Seq<char>,
    path: String,
    content: String,
    hint: Option<String>,
) -> bool {
    &&& d.key@ == name
    &&& d.title@ == name
    &&& d.source_path == Some(path)
    &&& d.content == content
    &&& d.language_hint == hint
}

/// How a document reads after a rekey: the same buffer under the new key
/// and title, with the path updated when the filesystem rename succeeded
/// and kept as it was when it failed or the document was unbound.
pub open spec fn rekeyed_doc(
    d_old: Document,
    d_new: Document,
    t: Seq<char>,
    renamed_path: Option<String>,
) -> bool {
    &&& d_new.key@ == t
    &&& d_new.title@ == t
    &&& d_new.content == d_old.content
    &&& d_new.language_hint == d_old.language_hint
    &&& d_new.source_path == (if renamed_path is Some {
        renamed_path
    } else {
        d_old.source_path
    })
}

/// A freshly created, empty, unbound document under key `k`.
pub open spec fn new_doc(d: Document, k: Seq<char>) -> bool {
    &&& d.key@ == k
    &&& d.title@ == k
    &&& d.source_path is None
    &&& d.content@ == Seq::<char>::empty()
    &&& d.language_hint is None
}

impl Session {
    /// The open order: the keys of the open documents, in tab position.
    pub open spec fn order(self) -> Seq<Seq<char>> {
        self.docs@.map_values(|d: Document| d.key@)
    }

    /// Whether some open document has key `k`.
    pub open spec fn has_key(self, k: Seq<char>) -> bool {
        exists|i: int| 0 <= i < self.docs@.len() && self.docs@[i].key@ == k
    }

    /// The tab position of the document with key `k` (meaningful when
    /// `has_key(k)`; unique in a well-formed session).
    pub open spec fn key_index(self, k: Seq<char>) -> int {
        choose|i: int| 0 <= i < self.docs@.len() && self.docs@[i].key@ == k
    }

    /// The document registry as a map from key to document.
    pub open spec fn registry(self) -> Map<Seq<char>, Document> {
        Map::new(|k: Seq<char>| self.has_key(k), |k: Seq<char>| self.docs@[self.key_index(k)])
    }

    /// Whether the active selection is exactly `k`.
    pub open spec fn active_is(self, k: Seq<char>) -> bool {
        self.active matches Some(a) && a@ == k
    }

    /// Session invariant: keys are unique, each title equals its key, and
    /// the active key, when set, names an open document.
    pub open spec fn wf(self) -> bool {
        &&& forall|i: int, j: int|
            0 <= i < j < self.docs@.len() ==> (#[trigger] self.docs@[i].key@) != (
            #[trigger] self.docs@[j].key@)
        &&& forall|i: int|
            0 <= i < self.docs@.len() ==> (#[trigger] self.docs@[i]).title@ == self.docs@[i].key@
        &&& (self.active matches Some(a) ==> self.has_key(a@))
    }

    /// A session with no open documents and the title counter at its start.
    pub fn new() -> (s: Session)
        ensures
            s.wf(),
            s.docs@.len() == 0,
            s.active is None,
            s.next_untitled == 1,
    {
        Session { docs: Vec::new(), active: None, next_untitled: 1 }
    }

    /// The tab position of the document with key `key`, if one is open.
    pub fn find_index(&self, key: &str) -> (r: Option<usize>)
        ensures
            match r {
                Some(i) => i < self.docs@.len() && self.docs@[i as int].key@ == key@,
                None => !self.has_key(key@),
            },
    {
        let mut i: usize = 0;
        while i < self.docs.len()
            invariant
                i <= self.docs@.len(),
                forall|j: int| 0 <= j < i ==> (#[trigger] self.docs@[j].key@) != key@,
            decreases self.docs@.len() - i,
        {
            if str_equal(self.docs[i].key.as_str(), key) {
                return Some(i);
            }
            i += 1;
        }
        None
    }

    /// Creates a new, empty, unbound document under a fresh auto-generated
    /// title, appends it to the open order and makes it active. The counter
    /// is strictly increasing and skips only titles currently in use.
    #[verifier::loop_isolation(false)]
    pub fn create_new_file(&mut self) -> (key: String)
        requires
            old(self).wf(),
            old(self).next_untitled + old(self).docs@.len() < usize::MAX,
        ensures
            final(self).wf(),
            final(self).next_untitled > old(self).next_untitled,
            final(self).next_untitled <= old(self).next_untitled + old(self).docs@.len() + 1,
            key@ == untitled_key((final(self).next_untitled - 1) as nat),
            !old(self).has_key(key@),
            forall|m: int|
                old(self).next_untitled <= m < final(self).next_untitled - 1 ==> old(
                    self,
                ).has_key(#[trigger] untitled_key(m as nat)),
            final(self).docs@.len() == old(self).docs@.len() + 1,
            forall|i: int|
                0 <= i < old(self).docs@.len() ==> final(self).docs@[i] == old(self).docs@[i],
            new_doc(final(self).docs@.last(), key@),
            final(self).active_is(key@),
    {
        let mut c: usize = self.next_untitled;
        let mut title = untitled_title(c);
        while self.find_index(title.as_str()).is_some()
            invariant
                self.next_untitled <= c,
                c - self.next_untitled <= self.docs@.len(),
                title@ == untitled_key(c as nat),
                forall|m: int|
                    self.next_untitled <= m < c ==> self.has_key(#[trigger] untitled_key(m as nat)),
            decreases self.docs@.len() + self.next_untitled - c,
        {
            proof {
                let base = self.next_untitled as nat;
                let m = (c + 1 - self.next_untitled) as nat;
                assert forall|t: nat| t < m implies self.order().contains(
                    #[trigger] untitled_key(base + t),
                ) by {
                    assert(self.has_key(untitled_key((base + t) as nat)));
                    let i = choose|i: int|
                        0 <= i < self.docs@.len() && self.docs@[i].key@ == untitled_key(base + t);
                    assert(self.order()[i] == untitled_key(base + t));
                }
                lemma_counters_in_use_bounded(self.order(), base, m);
            }
            c = c + 1;
            title = untitled_title(c);
        }
        let doc = Document {
            key: title.clone(),
            title: title.clone(),
            source_path: None,
            content: String::new(),
            language_hint: None,
        };
        self.docs.push(doc);
        self.active = Some(title.clone());
        self.next_untitled = c + 1;
        proof {
            let n = self.docs@.len();
            assert(self.docs@[n - 1].key@ == title@);
            assert forall|i: int, j: int| 0 <= i < j < n implies (#[trigger] self.docs@[i].key@)
                != (#[trigger] self.docs@[j].key@) by {
                if j == n - 1 {
                    assert(old(self).docs@[i].key@ != title@);
                }
            }
            assert(self.has_key(title@));
        }
        title
    }

    /// Opens a file's text under the key `file_name` and makes it active.
    /// If a document with that key is already open, the new one replaces it
    /// in place, keeping its tab position (last write wins, no duplicate
    /// tab); otherwise it is appended to the open order.
    pub fn open(
        &mut self,
        path: String,
        file_name: String,
        content: String,
        language_hint: Option<String>,
    )
        requires
            old(self).wf(),
        ensures
            final(self).wf(),
            final(self).next_untitled == old(self).next_untitled,
            final(self).active_is(file_name@),
            old(self).has_key(file_name@) ==> {
                let i = old(self).key_index(file_name@);
                &&& final(self).docs@.len() == old(self).docs@.len()
                &&& forall|j: int|
                    0 <= j < old(self).docs@.len() && j != i ==> final(self).docs@[j] == old(
                        self,
                    ).docs@[j]
                &&& opened_doc(final(self).docs@[i], file_name@, path, content, language_hint)
            },
            !old(self).has_key(file_name@) ==> {
                &&& final(self).docs@.len() == old(self).docs@.len() + 1
                &&& forall|j: int|
                    0 <= j < old(self).docs@.len() ==> final(self).docs@[j] == old(self).docs@[j]
                &&& opened_doc(
                    final(self).docs@.last(),
                    file_name@,
                    path,
                    content,
                    language_hint,
                )
            },
    {
        let doc = Document {
            key: file_name.clone(),
            title: file_name.clone(),
            source_path: Some(path),
            content,
            language_hint,
        };
        let found = self.find_index(file_name.as_str());
        match found {
            Some(i) => {
                proof {
                    let k = old(self).key_index(file_name@);
                    assert(old(self).docs@[k].key@ == file_name@);
                    assert(k == i);
                }
                self.docs.remove(i);
                self.docs.insert(i, doc);
                self.active = Some(file_name);
                proof {
                    assert(self.docs@[i as int] == doc);
                    assert forall|i2: int, j2: int|
                        0 <= i2 < j2 < self.docs@.len() implies (#[trigger] self.docs@[i2].key@)
                        != (#[trigger] self.docs@[j2].key@) by {
                        assert(old(self).docs@[i2].key@ != old(self).docs@[j2].key@);
                    }
                    assert(self.docs@[i as int].key@ == file_name@);
                    assert(self.has_key(file_name@));
                }
            },
            None => {
                self.docs.push(doc);
                self.active = Some(file_name);
                proof {
                    let n = self.docs@.len();
                    assert(self.docs@[n - 1] == doc);
                    assert forall|i2: int, j2: int| 0 <= i2 < j2 < n implies (
                    #[trigger] self.docs@[i2].key@) != (#[trigger] self.docs@[j2].key@) by {
                        if j2 == n - 1 {
                            assert(old(self).docs@[i2].key@ != file_name@);
                        }
                    }
                    assert(self.docs@[n - 1].key@ == file_name@);
                    assert(self.has_key(file_name@));
                }
            },
        }
    }

    /// Closes the document with key `key`, removing it from the registry
    /// and the open order. If it was active, the new active document is the
    /// last of the open order, or none if the session is now empty. Closing
    /// an absent key is a no-op.
    pub fn close(&mut self, key: &str)
        requires
            old(self).wf(),
        ensures
            final(self).wf(),
            final(self).next_untitled == old(self).next_untitled,
            !old(self).has_key(key@) ==> *final(self) == *old(self),
            old(self).has_key(key@) ==> {
                let i = old(self).key_index(key@);
                &&& final(self).docs@ == old(self).docs@.remove(i)
                &&& if old(self).active_is(key@) {
                    if final(self).docs@.len() == 0 {
                        final(self).active is None
                    } else {
                        final(self).active_is(final(self).docs@.last().key@)
                    }
                } else {
                    final(self).active == old(self).active
                }
            },
    {
        let found = self.find_index(key);
        match found {
            None => {},
            Some(i) => {
                proof {
                    let k = old(self).key_index(key@);
                    assert(old(self).docs@[k].key@ == key@);
                    assert(k == i);
                }
                let was_active = match &self.active {
                    Some(a) => str_equal(a.as_str(), key),
                    None => false,
                };
                self.docs.remove(i);
                proof {
                    assert forall|i2: int, j2: int|
                        0 <= i2 < j2 < self.docs@.len() implies (#[trigger] self.docs@[i2].key@)
                        != (#[trigger] self.docs@[j2].key@) by {
                        let oi = if i2 < i { i2 } else { i2 + 1 };
                        let oj = if j2 < i { j2 } else { j2 + 1 };
                        assert(old(self).docs@[oi].key@ != old(self).docs@[oj].key@);
                    }
                }
                if was_active {
                    if self.docs.len() == 0 {
                        self.active = None;
                    } else {
                        let last = self.docs.len() - 1;
                        self.active = Some(self.docs[last].key.clone());
                        proof {
                            assert(self.has_key(self.docs@.last().key@));
                        }
                    }
                } else {
                    proof {
                        match old(self).active {
                            Some(a) => {
                                let k = old(self).key_index(a@);
                                assert(old(self).docs@[k].key@ == a@);
                                assert(k != i);
                                let k2: int = if k < i {
                                    k
                                } else {
                                    k - 1
                                };
                                assert(self.docs@[k2].key@ == a@);
                            },
                            None => {},
                        }
                    }
                }
            },
        }
    }
    /// Whether `rename(key, new_title, ..)` would rekey anything: the new
    /// title must be non-empty once trimmed and the key must be open. The
    /// caller consults this before attempting a filesystem rename.
    pub fn rename_applies(&self, key: &str, new_title: &str) -> (r: bool)
        ensures
            r == (trimmed(new_title@).len() > 0 && self.has_key(key@)),
    {
        let t = trim_text(new_title);
        if t.as_str().unicode_len() == 0 {
            return false;
        }
        self.find_index(key).is_some()
    }

    /// Renames the document with key `key` to the trimmed `new_title`,
    /// keeping its tab position and buffer. A new title that trims to empty,
    /// or an absent key, applies nothing. Renaming onto the title of another
    /// open document closes that other document (overwrite semantics), so
    /// the title names exactly one tab afterwards. `renamed_path` is the
    /// result of the caller's filesystem rename: the new path when it
    /// succeeded, absent when it failed or the document was unbound; a
    /// filesystem failure does not block the rekey (lenient policy).
    #[verifier::rlimit(60)]
    pub fn rename(&mut self, key: &str, new_title: &str, renamed_path: Option<String>) -> (applied:
        bool)
        requires
            old(self).wf(),
        ensures
            final(self).wf(),
            final(self).next_untitled == old(self).next_untitled,
            applied == (trimmed(new_title@).len() > 0 && old(self).has_key(key@)),
            !applied ==> *final(self) == *old(self),
            applied ==> {
                let t = trimmed(new_title@);
                let i = old(self).key_index(key@);
                &&& final(self).has_key(t)
                &&& if old(self).has_key(t) && t != key@ {
                    let j = old(self).key_index(t);
                    let inew: int = if j < i {
                        i - 1
                    } else {
                        i
                    };
                    &&& final(self).docs@.len() == old(self).docs@.len() - 1
                    &&& final(self).docs@ == old(self).docs@.update(
                        i,
                        final(self).docs@[inew],
                    ).remove(j)
                    &&& rekeyed_doc(old(self).docs@[i], final(self).docs@[inew], t, renamed_path)
                } else {
                    &&& final(self).docs@.len() == old(self).docs@.len()
                    &&& forall|k: int|
                        0 <= k < old(self).docs@.len() && k != i ==> final(self).docs@[k] == old(
                            self,
                        ).docs@[k]
                    &&& rekeyed_doc(old(self).docs@[i], final(self).docs@[i], t, renamed_path)
                }
                &&& if old(self).active_is(key@) {
                    final(self).active_is(t)
                } else {
                    final(self).active == old(self).active
                }
            },
    {
        let t = trim_text(new_title);
        if t.as_str().unicode_len() == 0 {
            return false;
        }
        let found = self.find_index(key);
        let i = match found {
            None => {
                return false;
            },
            Some(i) => i,
        };
        proof {
            let k = old(self).key_index(key@);
            assert(old(self).docs@[k].key@ == key@);
            assert(k == i);
        }
        let was_active = match &self.active {
            Some(a) => str_equal(a.as_str(), key),
            None => false,
        };
        let ghost o = old(self).docs@;
        let mut pos = i;
        let ghost collision: bool = old(self).has_key(t@) && t@ != key@;
        let tfound = self.find_index(t.as_str());
        match tfound {
            Some(j) => {
                if j != i {
                    proof {
                        assert(o[j as int].key@ == t@ && o[i as int].key@ == key@);
                        assert(t@ != key@);
                        assert(collision);
                        let k = old(self).key_index(t@);
                        assert(old(self).docs@[k].key@ == t@);
                        assert(k == j);
                    }
                    self.docs.remove(j);
                    if j < i {
                        pos = i - 1;
                    }
                } else {
                    proof {
                        assert(t@ == key@);
                        assert(!collision);
                    }
                }
            },
            None => {
                proof {
                    assert(!collision);
                }
            },
        }
        let mut d = self.docs.remove(pos);
        proof {
            assert(d == o[i as int]);
        }
        d.key = t.clone();
        d.title = t.clone();
        match renamed_path {
            Some(p) => {
                d.source_path = Some(p);
            },
            None => {},
        }
        self.docs.insert(pos, d);
        if was_active {
            self.active = Some(t);
        }
        proof {
            let ti = trimmed(new_title@);
            let ii = i as int;
            let pp = pos as int;
            assert(self.docs@[pp] == d);
            assert(rekeyed_doc(o[ii], d, ti, renamed_path));
            if collision {
                let j = old(self).key_index(ti);
                lemma_rekey_collision_shape(o, self.docs@, d, ii, j, pp);
                lemma_rekey_collision_keys(o, self.docs@, d, ii, j, pp);
            } else {
                assert forall|k: int| 0 <= k < o.len() && k != ii implies self.docs@[k] == o[k]
                    by {}
                assert(ti == key@ || !old(self).has_key(ti));
                lemma_rekey_in_place_keys(o, self.docs@, d, ii);
            }
            assert(self.docs@[pp].key@ == ti);
            assert(self.has_key(ti));
            // the active key still names an open document
            if !old(self).active_is(key@) {
                match old(self).active {
                    Some(a) => {
                        let k = old(self).key_index(a@);
                        assert(o[k].key@ == a@);
                        assert(k != ii);
                        if collision {
                            let j = old(self).key_index(ti);
                            if k == j {
                                assert(a@ == ti);
                                assert(self.docs@[pp].key@ == a@);
                            } else {
                                let k2: int = if k < j {
                                    k
                                } else {
                                    k - 1
                                };
                                assert(self.docs@[k2] == o.update(ii, d).remove(j)[k2]);
                                assert(self.docs@[k2].key@ == a@ || self.docs@[pp].key@ == a@);
                            }
                        } else {
                            assert(self.docs@[k].key@ == a@);
                        }
                    },
                    None => {},
                }
            }
        }
        true
    }

    /// Where saving the document with key `key` would write: its bound
    /// path if it has one, else whatever the save-location prompt chose
    /// (`prompted`, absent when the prompt was cancelled). An unbound
    /// document with a cancelled prompt yields no target, so nothing is
    /// written and nothing changes. An absent key yields no target.
    pub fn save_target(&self, key: &str, prompted: Option<String>) -> (target: Option<String>)
        requires
            self.wf(),
        ensures
            !self.has_key(key@) ==> target is None,
            self.has_key(key@) ==> {
                let d = self.docs@[self.key_index(key@)];
                match d.source_path {
                    Some(p) => target matches Some(q) && q@ == p@,
                    None => target == prompted,
                }
            },
    {
        let found = self.find_index(key);
        match found {
            None => None,
            Some(i) => {
                proof {
                    let k = self.key_index(key@);
                    assert(self.docs@[k].key@ == key@);
                    assert(k == i);
                }
                match &self.docs[i].source_path {
                    Some(p) => Some(p.clone()),
                    None => prompted,
                }
            },
        }
    }

    /// Records the outcome of writing the document with key `key` to
    /// `path`: on success the document is now bound to that path; on
    /// failure, or for an absent key, nothing changes. The key and title
    /// deliberately keep their value even when the path's base name now
    /// differs (saved-as path and tab title may diverge until a rename).
    pub fn record_saved(&mut self, key: &str, path: String, write_ok: bool)
        requires
            old(self).wf(),
        ensures
            final(self).wf(),
            final(self).next_untitled == old(self).next_untitled,
            final(self).active == old(self).active,
            !(write_ok && old(self).has_key(key@)) ==> *final(self) == *old(self),
            write_ok && old(self).has_key(key@) ==> {
                let i = old(self).key_index(key@);
                &&& final(self).docs@.len() == old(self).docs@.len()
                &&& forall|k: int|
                    0 <= k < old(self).docs@.len() && k != i ==> final(self).docs@[k] == old(
                        self,
                    ).docs@[k]
                &&& final(self).docs@[i].source_path == Some(path)
                &&& final(self).docs@[i].key == old(self).docs@[i].key
                &&& final(self).docs@[i].title == old(self).docs@[i].title
                &&& final(self).docs@[i].content == old(self).docs@[i].content
                &&& final(self).docs@[i].language_hint == old(self).docs@[i].language_hint
            },
    {
        if !write_ok {
            return ;
        }
        let found = self.find_index(key);
        match found {
            None => {},
            Some(i) => {
                proof {
                    let k = old(self).key_index(key@);
                    assert(old(self).docs@[k].key@ == key@);
                    assert(k == i);
                }
                let ghost o = old(self).docs@;
                let mut d = self.docs.remove(i);
                d.source_path = Some(path);
                self.docs.insert(i, d);
                proof {
                    assert(self.docs@[i as int] == d);
                    assert forall|k: int| 0 <= k < o.len() && k != i implies self.docs@[k] == o[k]
                        by {}
                    lemma_rekey_in_place_keys(o, self.docs@, d, i as int);
                    match old(self).active {
                        Some(a) => {
                            let k = old(self).key_index(a@);
                            assert(o[k].key@ == a@);
                            assert(self.docs@[k].key@ == a@);
                        },
                        None => {},
                    }
                }
            },
        }
    }

    /// Counts the non-overlapping, left-to-right matches of the literal
    /// `needle` in the content of the document with key `key`; zero for an
    /// absent key or an empty needle. Case-sensitive, no patterns, and the
    /// content is left untouched.
    pub fn count_occurrences(&self, key: &str, needle: &str) -> (n: usize)
        requires
            self.wf(),
        ensures
            self.has_key(key@) ==> n as nat == match_count(
                self.docs@[self.key_index(key@)].content@,
                needle@,
            ),
            !self.has_key(key@) ==> n == 0,
    {
        let found = self.find_index(key);
        match found {
            None => 0,
            Some(i) => {
                proof {
                    let k = self.key_index(key@);
                    assert(self.docs@[k].key@ == key@);
                    assert(k == i);
                }
                count_matches(self.docs[i].content.as_str(), needle)
            },
        }
    }

    /// Replaces every non-overlapping, left-to-right match of the literal
    /// `needle` in the content of the document with key `key` by
    /// `replacement`, in place, and returns how many replacements were
    /// made. An empty needle, like an absent key, replaces nothing.
    pub fn replace_all(&mut self, key: &str, needle: &str, replacement: &str) -> (n: usize)
        requires
            old(self).wf(),
        ensures
            final(self).wf(),
            final(self).next_untitled == old(self).next_untitled,
            final(self).active == old(self).active,
            !old(self).has_key(key@) ==> *final(self) == *old(self) && n == 0,
            old(self).has_key(key@) ==> {
                let i = old(self).key_index(key@);
                &&& n as nat == match_count(old(self).docs@[i].content@, needle@)
                &&& final(self).docs@.len() == old(self).docs@.len()
                &&& forall|k: int|
                    0 <= k < old(self).docs@.len() && k != i ==> final(self).docs@[k] == old(
                        self,
                    ).docs@[k]
                &&& final(self).docs@[i].content@ == replaced(
                    old(self).docs@[i].content@,
                    needle@,
                    replacement@,
                )
                &&& final(self).docs@[i].key == old(self).docs@[i].key
                &&& final(self).docs@[i].title == old(self).docs@[i].title
                &&& final(self).docs@[i].source_path == old(self).docs@[i].source_path
                &&& final(self).docs@[i].language_hint == old(self).docs@[i].language_hint
            },
    {
        let found = self.find_index(key);
        match found {
            None => 0,
            Some(i) => {
                proof {
                    let k = old(self).key_index(key@);
                    assert(old(self).docs@[k].key@ == key@);
                    assert(k == i);
                }
                let ghost o = old(self).docs@;
                let mut d = self.docs.remove(i);
                let (new_content, n) = replace_matches(d.content.as_str(), needle, replacement);
                d.content = new_content;
                self.docs.insert(i, d);
                proof {
                    assert(self.docs@[i as int] == d);
                    assert forall|k: int| 0 <= k < o.len() && k != i implies self.docs@[k] == o[k]
                        by {}
                    lemma_rekey_in_place_keys(o, self.docs@, d, i as int);
                    match old(self).active {
                        Some(a) => {
                            let k = old(self).key_index(a@);
                            assert(o[k].key@ == a@);
                            assert(self.docs@[k].key@ == a@);
                        },
                        None => {},
                    }
                }
                n
            },
        }
    }

    /// The key of the focused document, if any.
    pub fn active_key(&self) -> (r: Option<String>)
        ensures
            r == self.active,
    {
        match &self.active {
            Some(a) => Some(a.clone()),
            None => None,
        }
    }
}

/// Law: the open order's key set equals the registry's key set — no
/// orphans, no omissions — and the open order holds no duplicates.
pub proof fn lemma_open_order_matches_registry(s: Session)
    requires
        s.wf(),
    ensures
        s.order().to_set() =~= s.registry().dom(),
        s.order().no_duplicates(),
{
    assert forall|k: Seq<char>| s.order().to_set().contains(k) implies s.registry().dom().contains(
        k,
    ) by {
        let i = choose|i: int| 0 <= i < s.order().len() && s.order()[i] == k;
        assert(s.docs@[i].key@ == k);
    }
    assert forall|k: Seq<char>| s.registry().dom().contains(k) implies s.order().to_set().contains(
        k,
    ) by {
        let i = s.key_index(k);
        assert(s.order()[i] == k);
        assert(s.order().contains(k));
    }
    assert forall|i: int, j: int|
        0 <= i < s.order().len() && 0 <= j < s.order().len() && i != j implies s.order()[i]
        != s.order()[j] by {
        if i < j {
            assert(s.docs@[i].key@ != s.docs@[j].key@);
        } else {
            assert(s.docs@[j].key@ != s.docs@[i].key@);
        }
    }
}

/// Law: a set active key always references an existing registry entry.
pub proof fn lemma_active_key_open(s: Session)
    requires
        s.wf(),
        s.active is Some,
    ensures
        s.registry().dom().contains(s.active->0@),
{
}

/// Law: an open key names exactly one tab in the open order; in particular,
/// after renaming onto the title of another open document, that title names
/// exactly one registry entry and appears in the open order exactly once.
pub proof fn lemma_key_named_once(s: Session, k: Seq<char>)
    requires
        s.wf(),
        s.has_key(k),
    ensures
        s.order().to_multiset().count(k) == 1,
{
    lemma_open_order_matches_registry(s);
    s.order().lemma_multiset_has_no_duplicates();
    s.order().to_multiset_ensures();
    let i = s.key_index(k);
    assert(s.order()[i] == k);
    assert(s.order().contains(k));
    assert(s.order().to_multiset().count(k) > 0);
}

/// Removing tab `j` and rewriting tab `i` (at its shifted position `pos`)
/// is the same as rewriting tab `i` first and then removing tab `j`.
proof fn lemma_rekey_collision_shape(
    o: Seq<Document>,
    s2: Seq<Document>,
    d: Document,
    i: int,
    j: int,
    pos: int,
)
    requires
        0 <= i < o.len(),
        0 <= j < o.len(),
        i != j,
        pos == if j < i {
            i - 1
        } else {
            i
        },
        s2 == o.remove(j).remove(pos).insert(pos, d),
    ensures
        s2 =~= o.update(i, d).remove(j),
{
    let u = o.update(i, d);
    let rhs = u.remove(j);
    assert forall|k: int| 0 <= k < s2.len() implies s2[k] == rhs[k] by {
        if j < i {
            if k < j {
                assert(s2[k] == o[k]);
                assert(rhs[k] == u[k]);
            } else if k < i - 1 {
                assert(s2[k] == o[k + 1]);
                assert(rhs[k] == u[k + 1]);
            } else if k == i - 1 {
                assert(s2[k] == d);
                assert(rhs[k] == u[k + 1]);
            } else {
                assert(s2[k] == o[k + 1]);
                assert(rhs[k] == u[k + 1]);
            }
        } else {
            if k == i {
                assert(s2[k] == d);
                assert(rhs[k] == u[k]);
            } else if k < j {
                assert(s2[k] == o[k]);
                assert(rhs[k] == u[k]);
            } else {
                assert(s2[k] == o[k + 1]);
                assert(rhs[k] == u[k + 1]);
            }
        }
    }
}

/// After rekeying tab `i` to the key of tab `j` and removing tab `j`, the
/// keys are still pairwise distinct and each title still equals its key.
proof fn lemma_rekey_collision_keys(
    o: Seq<Document>,
    s2: Seq<Document>,
    d: Document,
    i: int,
    j: int,
    pos: int,
)
    requires
        forall|i2: int, j2: int|
            0 <= i2 < j2 < o.len() ==> (#[trigger] o[i2].key@) != (#[trigger] o[j2].key@),
        forall|i2: int| 0 <= i2 < o.len() ==> (#[trigger] o[i2]).title@ == o[i2].key@,
        0 <= i < o.len(),
        0 <= j < o.len(),
        i != j,
        d.key@ == o[j].key@,
        d.title@ == d.key@,
        s2 =~= o.update(i, d).remove(j),
    ensures
        forall|i2: int, j2: int|
            0 <= i2 < j2 < s2.len() ==> (#[trigger] s2[i2].key@) != (#[trigger] s2[j2].key@),
        forall|i2: int| 0 <= i2 < s2.len() ==> (#[trigger] s2[i2]).title@ == s2[i2].key@,
{
    let u = o.update(i, d);
    assert forall|i2: int, j2: int|
        0 <= i2 < j2 < s2.len() implies (#[trigger] s2[i2].key@) != (#[trigger] s2[j2].key@) by {
        let m2 = if i2 < j {
            i2
        } else {
            i2 + 1
        };
        let n2 = if j2 < j {
            j2
        } else {
            j2 + 1
        };
        assert(s2[i2] == u[m2]);
        assert(s2[j2] == u[n2]);
        if m2 != i && n2 != i {
            assert(o[m2].key@ != o[n2].key@);
        } else if m2 == i {
            assert(o[n2].key@ != o[j].key@);
        } else {
            assert(o[m2].key@ != o[j].key@);
        }
    }
    assert forall|i2: int| 0 <= i2 < s2.len() implies (#[trigger] s2[i2]).title@ == s2[i2].key@ by {
        let m2 = if i2 < j {
            i2
        } else {
            i2 + 1
        };
        assert(s2[i2] == u[m2]);
    }
}

/// After rekeying tab `i` to a title no other tab carries, the keys are
/// still pairwise distinct and each title still equals its key.
proof fn lemma_rekey_in_place_keys(o: Seq<Document>, s2: Seq<Document>, d: Document, i: int)
    requires
        forall|i2: int, j2: int|
            0 <= i2 < j2 < o.len() ==> (#[trigger] o[i2].key@) != (#[trigger] o[j2].key@),
        forall|i2: int| 0 <= i2 < o.len() ==> (#[trigger] o[i2]).title@ == o[i2].key@,
        0 <= i < o.len(),
        d.title@ == d.key@,
        d.key@ == o[i].key@ || forall|k: int| 0 <= k < o.len() ==> (#[trigger] o[k].key@)
            != d.key@,
        s2.len() == o.len(),
        s2[i] == d,
        forall|k: int| 0 <= k < o.len() && k != i ==> s2[k] == o[k],
    ensures
        forall|i2: int, j2: int|
            0 <= i2 < j2 < s2.len() ==> (#[trigger] s2[i2].key@) != (#[trigger] s2[j2].key@),
        forall|i2: int| 0 <= i2 < s2.len() ==> (#[trigger] s2[i2]).title@ == s2[i2].key@,
{
    assert forall|i2: int, j2: int|
        0 <= i2 < j2 < s2.len() implies (#[trigger] s2[i2].key@) != (#[trigger] s2[j2].key@) by {
        assert(o[i2].key@ != o[j2].key@);
    }
}

/// If the titles for `m` consecutive counter values, starting at `base`,
/// are all in use, there are at least `m` open documents: distinct counters
/// give distinct titles.
proof fn lemma_counters_in_use_bounded(keys: Seq<Seq<char>>, base: nat, m: nat)
    requires
        forall|t: nat| t < m ==> keys.contains(#[trigger] untitled_key((base + t) as nat)),
    ensures
        m <= keys.len(),
    decreases m,
{
    if m > 0 {
        assert(keys.contains(untitled_key((base + 0) as nat)));
        let i = choose|i: int| 0 <= i < keys.len() && keys[i] == untitled_key(base);
        let rest = keys.remove(i);
        assert forall|t: nat| t < (m - 1) as nat implies rest.contains(
            #[trigger] untitled_key(((base + 1) + t) as nat),
        ) by {
            assert(keys.contains(untitled_key((base + (t + 1)) as nat)));
            let v = untitled_key(base + 1 + t);
            let j = choose|j: int| 0 <= j < keys.len() && keys[j] == v;
            if v == untitled_key(base) {
                lemma_untitled_key_injective((base + 1 + t) as nat, base);
                assert(false);
            }
            if j < i {
                assert(rest[j] == keys[j]);
            } else {
                assert(rest[j - 1] == keys[j]);
            }
        }
        lemma_counters_in_use_bounded(rest, (base + 1) as nat, (m - 1) as nat);
    }
}

} // verus!
