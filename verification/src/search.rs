//! The interactive search model: the search-term state machine the key
//! loop drives, the result page, and its text rendering.  Fetching and
//! the terminal itself stay with the runner.
use vstd::prelude::*;
use crate::strutil::{dec_digits, push_char, u64_to_dec};

verus! {

/// Replaces every newline in `input` with a space, leaving all other
/// characters untouched.
pub open spec fn sanitize_spec(s: Seq<char>) -> Seq<char> {
    s.map_values(
        |c: char|
            if c == '\n' {
                ' '
            } else {
                c
            },
    )
}

/// Flattens a description onto one line, as [`sanitize_spec`] says.
pub fn sanitize(input: &str) -> (r: String)
    ensures
        r@ == sanitize_spec(input@),
{
    let n = input.unicode_len();
    let mut out = String::new();
    let mut i: usize = 0;
    while i < n
        invariant
            n == input@.len(),
            i <= n,
            out@ == sanitize_spec(input@.take(i as int)),
        decreases n - i,
    {
        let c = input.get_char(i);
        let c2 = if c == '\n' {
            ' '
        } else {
            c
        };
        push_char(&mut out, c2);
        proof {
            assert(input@.take(i + 1) =~= input@.take(i as int).push(input@[i as int]));
            assert(out@ =~= sanitize_spec(input@.take(i + 1)));
        }
        i = i + 1;
    }
    proof {
        assert(input@.take(n as int) =~= input@);
    }
    out
}

/// The counts reported with one result page.
#[derive(Clone, PartialEq, Eq, Debug)]
pub struct Meta {
    pub total: u32,
    pub page_size: Option<usize>,
}

impl Default for Meta {
    /// No hits counted, no page size chosen yet.
    fn default() -> (r: Meta)
        ensures
            r.total == 0 && r.page_size is None,
    {
        Meta { total: 0, page_size: None }
    }
}

/// One search hit of the package index.
#[derive(Clone, PartialEq, Eq, Debug)]
pub struct Crate {
    pub description: String,
    pub downloads: u32,
    pub max_version: String,
    pub name: String,
}

impl Default for Crate {
    /// The blank hit that pads a page to its full size.
    fn default() -> (r: Crate)
        ensures
            r.description@.len() == 0,
            r.downloads == 0,
            r.max_version@.len() == 0,
            r.name@.len() == 0,
    {
        Crate {
            description: String::new(),
            downloads: 0,
            max_version: String::new(),
            name: String::new(),
        }
    }
}

/// The line one hit is shown as: name, description flattened and cut to
/// eighty characters, downloads, newest version, separated by pipes.  A
/// hit with an empty name shows as nothing.
pub open spec fn crate_line_spec(
    name: Seq<char>,
    description: Seq<char>,
    downloads: u32,
    max_version: Seq<char>,
) -> Seq<char> {
    if name.len() == 0 {
        Seq::empty()
    } else {
        name + " | "@ + sanitize_spec(description).take(
            (if description.len() < 80 {
                description.len() as int
            } else {
                80int
            }),
        ) + " | "@ + dec_digits(downloads as nat) + " | "@ + max_version
    }
}

impl Crate {
    /// Renders this hit as [`crate_line_spec`] says.
    pub fn display_line(&self) -> (r: String)
        ensures
            r@ == crate_line_spec(self.name@, self.description@, self.downloads, self.max_version@),
    {
        if self.name.as_str().unicode_len() == 0 {
            let r = String::new();
            proof {
                assert(r@ =~= crate_line_spec(
                    self.name@,
                    self.description@,
                    self.downloads,
                    self.max_version@,
                ));
            }
            return r;
        }
        let mut out = self.name.clone();
        out.append(" | ");
        let desc = sanitize(self.description.as_str());
        let dn = desc.as_str().unicode_len();
        let keep: usize = if dn < 80 {
            dn
        } else {
            80
        };
        let cut = desc.as_str().substring_char(0, keep);
        out.append(cut);
        out.append(" | ");
        let ds = u64_to_dec(self.downloads as u64);
        out.append(ds.as_str());
        out.append(" | ");
        out.append(self.max_version.as_str());
        proof {
            assert(sanitize_spec(self.description@).len() == self.description@.len());
            assert(out@ =~= crate_line_spec(
                self.name@,
                self.description@,
                self.downloads,
                self.max_version@,
            ));
        }
        out
    }
}

/// One page of search results.
#[derive(Clone, PartialEq, Eq, Debug)]
pub struct SearchResult {
    pub crates: Vec<Crate>,
    pub meta: Meta,
}

impl SearchResult {
    /// An empty page that knows its size; it is what the runner shows
    /// before any search ran and after the term is cleared.
    pub fn with_page_size(page_size: usize) -> (r: SearchResult)
        ensures
            r.crates@.len() == 0,
            r.meta.total == 0,
            r.meta.page_size == Some(page_size),
    {
        SearchResult { crates: Vec::new(), meta: Meta { total: 0, page_size: Some(page_size) } }
    }

    /// The page as lines, one per slot: the hits in order, blank-padded
    /// to the page size, each line cut to the terminal's width in
    /// characters.
    pub fn page_lines(&self, max_width: usize) -> (r: Vec<String>)
        requires
            self.meta.page_size is Some,
        ensures
            r@.len() == self.meta.page_size->0,
            forall|i: int|
                0 <= i < r@.len() ==> {
                    let full = (if i < self.crates@.len() {
                        crate_line_spec(
                            self.crates@[i].name@,
                            self.crates@[i].description@,
                            self.crates@[i].downloads,
                            self.crates@[i].max_version@,
                        )
                    } else {
                        Seq::<char>::empty()
                    });
                    (#[trigger] r@[i])@ == full.take(
                        (if full.len() < max_width as int {
                            full.len() as int
                        } else {
                            max_width as int
                        }),
                    )
                },
    {
        let ps = match self.meta.page_size {
            Some(p) => p,
            None => 0,
        };
        let mut out: Vec<String> = Vec::new();
        let mut i: usize = 0;
        while i < ps
            invariant
                self.meta.page_size == Some(ps),
                i <= ps,
                out@.len() == i,
                forall|j: int|
                    0 <= j < i ==> {
                        let full = (if j < self.crates@.len() {
                            crate_line_spec(
                                self.crates@[j].name@,
                                self.crates@[j].description@,
                                self.crates@[j].downloads,
                                self.crates@[j].max_version@,
                            )
                        } else {
                            Seq::<char>::empty()
                        });
                        (#[trigger] out@[j])@ == full.take(
                            (if full.len() < max_width as int {
                                full.len() as int
                            } else {
                                max_width as int
                            }),
                        )
                    },
            decreases ps - i,
        {
            let line = if i < self.crates.len() {
                self.crates[i].display_line()
            } else {
                String::new()
            };
            let ln = line.as_str().unicode_len();
            let keep: usize = if ln < max_width {
                ln
            } else {
                max_width
            };
            let cut = line.as_str().substring_char(0, keep).to_owned();
            out.push(cut);
            i = i + 1;
        }
        out
    }
}

/// A key the interactive search reacts to.
#[derive(Clone, Copy, PartialEq, Eq, Structural, Debug)]
pub enum SearchKey {
    Char(char),
    Backspace,
    Esc,
    Other,
}

/// What the runner should do after a key was applied to the term.
#[derive(Clone, Copy, PartialEq, Eq, Structural, Debug)]
pub enum SearchAction {
    /// Search for the current term.
    Search,
    /// Show the empty page: the term is empty.
    ShowDefault,
    /// Leave the search.
    Quit,
    /// Tell the user the key does nothing.
    Unsupported,
}

/// Advances the search term by one key and says what to do next: a
/// newline clears the term, any other character extends it, backspace
/// removes the last character, escape quits, anything else is
/// unsupported.  After an edit, an empty term shows the empty page and a
/// non-empty one is searched.
pub fn advance_search(term: &mut String, key: SearchKey) -> (r: SearchAction)
    ensures
        match key {
            SearchKey::Char(c) => {
                if c == '\n' {
                    final (term)@ == Seq::<char>::empty() && r == SearchAction::ShowDefault
                } else {
                    final (term)@ == old(term)@.push(c) && r == SearchAction::Search
                }
            },
            SearchKey::Backspace => {
                &&& final (term)@ == (if old(term)@.len() > 0 {
                    old(term)@.drop_last()
                } else {
                    old(term)@
                })
                &&& r == (if final (term)@.len() > 0 {
                    SearchAction::Search
                } else {
                    SearchAction::ShowDefault
                })
            },
            SearchKey::Esc => final (term)@ == old(term)@ && r == SearchAction::Quit,
            SearchKey::Other => final (term)@ == old(term)@ && r == SearchAction::Unsupported,
        },
{
    match key {
        SearchKey::Char(c) => {
            if c == '\n' {
                *term = String::new();
                proof {
                    assert(term@ =~= Seq::<char>::empty());
                }
                SearchAction::ShowDefault
            } else {
                push_char(term, c);
                SearchAction::Search
            }
        },
        SearchKey::Backspace => {
            let n = term.as_str().unicode_len();
            if n > 0 {
                let shorter = term.as_str().substring_char(0, n - 1).to_owned();
                proof {
                    assert(term@.subrange(0, n - 1) =~= term@.drop_last());
                }
                *term = shorter;
            }
            let left = term.as_str().unicode_len();
            if left > 0 {
                SearchAction::Search
            } else {
                SearchAction::ShowDefault
            }
        },
        SearchKey::Esc => SearchAction::Quit,
        SearchKey::Other => SearchAction::Unsupported,
    }
}

} // verus!
