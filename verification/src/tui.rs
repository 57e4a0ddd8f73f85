//! The dashboard frame model.  The library computes what one frame of the
//! progress dashboard shows — which text goes to which cell of the
//! terminal grid — as plain spans; a runner maps the spans onto the
//! screen.  Grapheme segmentation, which decides where wide text is cut,
//! comes from an outside segmenter behind a trusted boundary.
use vstd::prelude::*;
use unicode_segmentation::UnicodeSegmentation;
use crate::strutil::{dec_digits, push_char, repeat_char, u64_to_dec};

verus! {

/// How the dashboard runner is configured.
#[derive(Clone)]
pub struct Config {
    pub frames_per_second: u8,
}

/// A rectangle of the terminal grid.
#[derive(Clone, Copy, PartialEq, Eq, Structural, Debug)]
pub struct Rect {
    pub x: u16,
    pub y: u16,
    pub width: u16,
    pub height: u16,
}

/// Where one entry sits in the progress tree; its level indents it.
#[derive(Clone, Copy, PartialEq, Eq, Structural, Debug)]
pub struct TreeKey {
    pub level: u16,
}

/// The progress of one task: the current step, the step count that means
/// done, and the unit shown beside the numbers.
#[derive(Clone, PartialEq, Eq, Debug)]
pub struct Progress {
    pub step: u32,
    pub done_at: Option<u32>,
    pub unit: Option<String>,
}

/// One entry of the progress tree: a title and optional progress.
#[derive(Clone, PartialEq, Eq, Debug)]
pub struct TreeValue {
    pub title: String,
    pub progress: Option<Progress>,
}

/// One piece of text placed on the frame.
#[derive(Clone, PartialEq, Eq, Debug)]
pub struct Span {
    pub x: u16,
    pub y: u16,
    pub text: String,
}

/// The grapheme clusters a string divides into, in order.  The division
/// depends on the characters alone.
pub uninterp spec fn graphemes_of(s: Seq<char>) -> Seq<Seq<char>>;

/// The concatenation of a sequence of character sequences.
pub open spec fn flatten_chars(ss: Seq<Seq<char>>) -> Seq<char>
    decreases ss.len(),
{
    if ss.len() == 0 {
        Seq::empty()
    } else {
        ss[0] + flatten_chars(ss.drop_first())
    }
}

/// The first `k` grapheme clusters of a string, as text.
pub open spec fn grapheme_prefix(s: Seq<char>, k: int) -> Seq<char> {
    let g = graphemes_of(s);
    flatten_chars(g.take(if k < g.len() {
        k
    } else {
        g.len() as int
    }))
}

/// Relies on unicode-segmentation's grapheme iterator: collecting the
/// first `k` clusters yields the text of that prefix of the partition.
#[verifier::external_body]
fn take_graphemes(s: &str, k: usize) -> (r: String)
    ensures
        r@ == flatten_chars(
            graphemes_of(s@).take(
                (if (k as int) < graphemes_of(s@).len() {
                    k as int
                } else {
                    graphemes_of(s@).len() as int
                }),
            ),
        ),
{
    s.graphemes(true).take(k).collect()
}

/// The text shown for one progress value in a column of `width` cells:
/// the step, the step count that means done if there is one, the unit if
/// there is one — or, with no progress at all, a rule filling the column.
pub open spec fn progress_text_spec(p: Option<Progress>, width: u16) -> Seq<char> {
    match p {
        Some(p) => dec_digits(p.step as nat) + (match p.done_at {
            Some(d) => " / "@ + dec_digits(d as nat),
            None => Seq::empty(),
        }) + (match p.unit {
            Some(u) => seq![' '] + u@,
            None => Seq::empty(),
        }),
        None => Seq::new(width as nat, |i: int| '─'),
    }
}

/// Renders one progress value as [`progress_text_spec`] says.
pub fn progress_text(p: &Option<Progress>, width: u16) -> (r: String)
    ensures
        r@ == progress_text_spec(*p, width),
{
    match p {
        Some(pr) => {
            let mut out = u64_to_dec(pr.step as u64);
            match &pr.done_at {
                Some(d) => {
                    out.append(" / ");
                    let ds = u64_to_dec(*d as u64);
                    out.append(ds.as_str());
                },
                None => {},
            }
            match &pr.unit {
                Some(u) => {
                    push_char(&mut out, ' ');
                    out.append(u.as_str());
                },
                None => {},
            }
            proof {
                assert(out@ =~= progress_text_spec(*p, width));
            }
            out
        },
        None => {
            let r = repeat_char('─', width as usize);
            proof {
                assert(r@ =~= progress_text_spec(*p, width));
            }
            r
        },
    }
}

/// How many cells of a bar of `width` cells are filled at `step` of
/// `done_at`: the whole share, never past full.
pub fn bar_width(width: u16, step: u32, done_at: u32) -> (r: u16)
    requires
        done_at > 0,
    ensures
        r == if (width as int * step as int) / (done_at as int) < width as int {
            (width as int * step as int) / (done_at as int)
        } else {
            width as int
        },
{
    proof {
        assert((width as int) * (step as int) < 0x1_0000_0000_0000_0000int) by (nonlinear_arith)
            requires
                width as int <= 0xFFFF,
                step as int <= 0xFFFF_FFFF,
        ;
    }
    let filled = (width as u64 * step as u64) / (done_at as u64);
    if filled < width as u64 {
        filled as u16
    } else {
        width
    }
}

/// The indented title shown left of one entry: the marker, right-aligned
/// over the entry's level, a space, and the title.
pub open spec fn prefix_text(level: u16, title: Seq<char>) -> Seq<char> {
    Seq::new((if level >= 1 {
        level - 1
    } else {
        0int
    }) as nat, |i: int| ' ') + seq!['‧'] + seq![' '] + title
}

/// The prefix as it is cut for a column ending at `column_end`: at most
/// `column_end - 1` grapheme clusters, with an ellipsis appended when the
/// cut text still crowds the column.
pub open spec fn truncated_prefix(level: u16, title: Seq<char>, column_end: u16) -> Seq<char> {
    let t = grapheme_prefix(prefix_text(level, title), (if column_end >= 1 {
        column_end - 1
    } else {
        0int
    }) as int);
    if (vstd::utf8::encode_utf8(t).len() as usize) + 1 >= column_end {
        t.push('…')
    } else {
        t
    }
}

/// Builds the indented, cut title of one entry.
fn build_tree_prefix(level: u16, title: &String, column_end: u16) -> (r: String)
    ensures
        r@ == truncated_prefix(level, title@, column_end),
{
    let pad: usize = if level >= 1 {
        (level - 1) as usize
    } else {
        0
    };
    let mut p = repeat_char(' ', pad);
    push_char(&mut p, '‧');
    push_char(&mut p, ' ');
    p.append(title.as_str());
    proof {
        assert(p@ =~= prefix_text(level, title@));
    }
    let keep: usize = if column_end >= 1 {
        (column_end - 1) as usize
    } else {
        0
    };
    let mut t = take_graphemes(p.as_str(), keep);
    proof {
        assert(t@ == grapheme_prefix(p@, keep as int));
    }
    let blen = t.as_str().len();
    if blen >= u16::MAX as usize || blen + 1 >= column_end as usize {
        push_char(&mut t, '…');
    }
    t
}

/// How wide one entry's cut title shows, in bytes, capped at the widest
/// representable column.
pub open spec fn prefix_shown_len(level: u16, title: Seq<char>, column_end: u16) -> u16 {
    let b = vstd::utf8::encode_utf8(truncated_prefix(level, title, column_end)).len() as usize;
    if b >= u16::MAX as usize {
        u16::MAX
    } else {
        b as u16
    }
}

/// Draws the indented titles of the visible entries into the left column
/// and reports the widest one in bytes, if anything was drawn.
pub fn draw_tree_prefix(
    entries: &Vec<(TreeKey, TreeValue)>,
    buf: &mut Vec<Span>,
    current: Rect,
    column_end: u16,
) -> (r: Option<u16>)
    requires
        current.y + current.height <= u16::MAX,
    ensures
        ({
            let k = if entries@.len() < current.height as int {
                entries@.len() as int
            } else {
                current.height as int
            };
            &&& final (buf)@.len() == old(buf)@.len() + k
            &&& final (buf)@.take(old(buf)@.len() as int) == old(buf)@
            &&& forall|i: int|
                0 <= i < k ==> {
                    let s = #[trigger] final (buf)@[old(buf)@.len() + i];
                    &&& s.x == current.x
                    &&& s.y == current.y + i
                    &&& s.text@ == truncated_prefix(
                        entries@[i].0.level,
                        entries@[i].1.title@,
                        column_end,
                    )
                }
            &&& (r is Some <==> k > 0)
            &&& r matches Some(m) ==> {
                &&& forall|i: int|
                    0 <= i < k ==> #[trigger] prefix_shown_len(
                        entries@[i].0.level,
                        entries@[i].1.title@,
                        column_end,
                    ) <= m
                &&& exists|i: int|
                    0 <= i < k && #[trigger] prefix_shown_len(
                        entries@[i].0.level,
                        entries@[i].1.title@,
                        column_end,
                    ) == m
            }
        }),
{
    let n = entries.len();
    let h = current.height as usize;
    let k = if n < h {
        n
    } else {
        h
    };
    let ghost buf0 = buf@;
    let mut max_prefix_len: Option<u16> = None;
    let mut i: usize = 0;
    while i < k
        invariant
            k <= entries@.len(),
            k <= current.height,
            current.y + current.height <= u16::MAX,
            i <= k,
            buf@.len() == buf0.len() + i,
            buf@.take(buf0.len() as int) == buf0,
            forall|j: int|
                0 <= j < i ==> {
                    let s = #[trigger] buf@[buf0.len() + j];
                    &&& s.x == current.x
                    &&& s.y == current.y + j
                    &&& s.text@ == truncated_prefix(
                        entries@[j].0.level,
                        entries@[j].1.title@,
                        column_end,
                    )
                },
            max_prefix_len is Some <==> i > 0,
            max_prefix_len matches Some(m) ==> {
                &&& forall|j: int|
                    0 <= j < i ==> #[trigger] prefix_shown_len(
                        entries@[j].0.level,
                        entries@[j].1.title@,
                        column_end,
                    ) <= m
                &&& exists|j: int|
                    0 <= j < i && #[trigger] prefix_shown_len(
                        entries@[j].0.level,
                        entries@[j].1.title@,
                        column_end,
                    ) == m
            },
        decreases k - i,
    {
        let entry = &entries[i];
        let tree_prefix = build_tree_prefix(entry.0.level, &entry.1.title, column_end);
        let plen = tree_prefix.as_str().len();
        let plen16: u16 = if plen >= u16::MAX as usize {
            u16::MAX
        } else {
            plen as u16
        };
        proof {
            assert(plen16 == prefix_shown_len(
                entries@[i as int].0.level,
                entries@[i as int].1.title@,
                column_end,
            ));
        }
        max_prefix_len = match max_prefix_len {
            None => Some(plen16),
            Some(m) => Some(
                if m >= plen16 {
                    m
                } else {
                    plen16
                },
            ),
        };
        let span = Span { x: current.x, y: current.y + (i as u16), text: tree_prefix };
        buf.push(span);
        proof {
            assert(buf@.take(buf0.len() as int) =~= buf0);
        }
        i = i + 1;
    }
    max_prefix_len
}

/// The line shown right of the titles for one entry: a separating bar, a
/// space, and the progress text.
pub open spec fn progress_line(p: Option<Progress>, width: u16) -> Seq<char> {
    seq!['│', ' '] + progress_text_spec(p, width)
}

/// Draws the progress column of the visible entries, one line each,
/// starting one cell right of the widest title.
pub fn draw_progress(
    entries: &Vec<(TreeKey, TreeValue)>,
    buf: &mut Vec<Span>,
    current: Rect,
    max_prefix_len: u16,
) -> (r: ())
    requires
        current.y + current.height <= u16::MAX,
        max_prefix_len < u16::MAX,
    ensures
        ({
            let k = if entries@.len() < current.height as int {
                entries@.len() as int
            } else {
                current.height as int
            };
            &&& final (buf)@.len() == old(buf)@.len() + k
            &&& final (buf)@.take(old(buf)@.len() as int) == old(buf)@
            &&& forall|i: int|
                0 <= i < k ==> {
                    let s = #[trigger] final (buf)@[old(buf)@.len() + i];
                    &&& s.x == max_prefix_len + 1
                    &&& s.y == current.y + i
                    &&& s.text@ == progress_line(
                        entries@[i].1.progress,
                        if current.width >= max_prefix_len + 1 {
                            (current.width - (max_prefix_len + 1)) as u16
                        } else {
                            0u16
                        },
                    )
                }
        }),
{
    let n = entries.len();
    let h = current.height as usize;
    let k = if n < h {
        n
    } else {
        h
    };
    let x_offset = max_prefix_len + 1;
    let max_width: u16 = if current.width >= x_offset {
        current.width - x_offset
    } else {
        0
    };
    let ghost buf0 = buf@;
    let mut i: usize = 0;
    while i < k
        invariant
            k <= entries@.len(),
            k <= current.height,
            current.y + current.height <= u16::MAX,
            x_offset == max_prefix_len + 1,
            max_width == if current.width >= max_prefix_len + 1 {
                (current.width - (max_prefix_len + 1)) as u16
            } else {
                0u16
            },
            i <= k,
            buf@.len() == buf0.len() + i,
            buf@.take(buf0.len() as int) == buf0,
            forall|j: int|
                0 <= j < i ==> {
                    let s = #[trigger] buf@[buf0.len() + j];
                    &&& s.x == max_prefix_len + 1
                    &&& s.y == current.y + j
                    &&& s.text@ == progress_line(entries@[j].1.progress, max_width)
                },
        decreases k - i,
    {
        let entry = &entries[i];
        let ptext = progress_text(&entry.1.progress, max_width);
        let mut line = String::new();
        push_char(&mut line, '│');
        push_char(&mut line, ' ');
        line.append(ptext.as_str());
        proof {
            assert(line@ =~= progress_line(entries@[i as int].1.progress, max_width));
        }
        let span = Span { x: x_offset, y: current.y + (i as u16), text: line };
        buf.push(span);
        proof {
            assert(buf@.take(buf0.len() as int) =~= buf0);
        }
        i = i + 1;
    }
}

/// The integer percentage one entry's progress stands at; an entry
/// without a finishing step counts as zero.
pub open spec fn pct_of(p: Option<Progress>) -> int {
    match p {
        Some(pr) => match pr.done_at {
            Some(d) => if d > 0 {
                (pr.step as int * 100) / (d as int)
            } else {
                0
            },
            None => 0,
        },
        None => 0,
    }
}

/// The summed percentages of the entries past `from`.
pub open spec fn sum_pct(es: Seq<(TreeKey, TreeValue)>, from: int) -> int
    decreases es.len() - from,
{
    if from < 0 || from >= es.len() {
        0
    } else {
        pct_of(es[from].1.progress) + sum_pct(es, from + 1)
    }
}

/// The line that stands in for the entries that did not fit: how many
/// there are and their average progress percentage.
pub open spec fn overflow_text(es: Seq<(TreeKey, TreeValue)>, skip: int) -> Seq<char> {
    "…and "@ + dec_digits((es.len() - skip) as nat) + " more -- "@ + dec_digits(
        (sum_pct(es, skip) / (es.len() - skip)) as nat,
    ) + seq!['%']
}

/// Draws the one-line summary of the entries that did not fit the frame:
/// their count and their average progress percentage.
pub fn draw_overflow(
    entries: &Vec<(TreeKey, TreeValue)>,
    skip: usize,
    buf: &mut Vec<Span>,
    overflow_rect: Rect,
) -> (r: ())
    requires
        skip < entries@.len(),
    ensures
        final (buf)@.len() == old(buf)@.len() + 1,
        final (buf)@.take(old(buf)@.len() as int) == old(buf)@,
        final (buf)@.last().x == overflow_rect.x,
        final (buf)@.last().y == overflow_rect.y,
        final (buf)@.last().text@ == overflow_text(entries@, skip as int),
{
    let n = entries.len();
    let count = n - skip;
    let mut sum: u128 = 0;
    let mut i: usize = n;
    while i > skip
        invariant
            skip < n,
            n == entries@.len(),
            skip <= i <= n,
            sum == sum_pct(entries@, i as int),
            sum <= (n - i) * 0x1_0000_0000_0000u128,
        decreases i - skip,
    {
        i = i - 1;
        let e = &entries[i];
        let pct: u64 = match &e.1.progress {
            Some(pr) => match &pr.done_at {
                Some(d) => {
                    if *d > 0 {
                        (pr.step as u64 * 100) / (*d as u64)
                    } else {
                        0
                    }
                },
                None => 0,
            },
            None => 0,
        };
        proof {
            assert(pct == pct_of(entries@[i as int].1.progress));
            assert(pct < 0x1_0000_0000_0000u128);
        }
        sum = sum + pct as u128;
    }
    let avg: u128 = sum / (count as u128);
    proof {
        let c = 0x1_0000_0000_0000int;
        vstd::arithmetic::div_mod::lemma_div_is_ordered(sum as int, count as int * c, count as int);
        vstd::arithmetic::div_mod::lemma_div_by_multiple(c, count as int);
        assert(avg <= c);
    }
    let mut text = String::new();
    text.append("…and ");
    let cs = u64_to_dec(count as u64);
    text.append(cs.as_str());
    text.append(" more -- ");
    let avgs = u64_to_dec(avg as u64);
    text.append(avgs.as_str());
    push_char(&mut text, '%');
    proof {
        assert(text@ =~= overflow_text(entries@, skip as int));
    }
    let span = Span { x: overflow_rect.x, y: overflow_rect.y, text };
    buf.push(span);
    proof {
        assert(buf@.take(buf@.len() - 1) =~= old(buf)@);
    }
}

/// The widest shown title among the first `k` entries, in bytes, each
/// capped at the widest representable column.
pub open spec fn widest_prefix(es: Seq<(TreeKey, TreeValue)>, k: int, column_end: u16) -> u16
    decreases k,
{
    if k <= 0 {
        0
    } else {
        let m = widest_prefix(es, k - 1, column_end);
        let c = prefix_shown_len(es[k - 1].0.level, es[k - 1].1.title@, column_end);
        if c > m {
            c
        } else {
            m
        }
    }
}

/// The widest shown title bounds every entry's width and is attained.
proof fn lemma_widest_prefix(es: Seq<(TreeKey, TreeValue)>, k: int, column_end: u16)
    requires
        0 < k <= es.len(),
    ensures
        forall|i: int|
            0 <= i < k ==> #[trigger] prefix_shown_len(es[i].0.level, es[i].1.title@, column_end)
                <= widest_prefix(es, k, column_end),
        exists|i: int|
            0 <= i < k && #[trigger] prefix_shown_len(es[i].0.level, es[i].1.title@, column_end)
                == widest_prefix(es, k, column_end),
    decreases k,
{
    if k == 1 {
        assert(prefix_shown_len(es[0].0.level, es[0].1.title@, column_end) == widest_prefix(
            es,
            1,
            column_end,
        ));
    } else {
        lemma_widest_prefix(es, k - 1, column_end);
        let c = prefix_shown_len(es[k - 1].0.level, es[k - 1].1.title@, column_end);
        if c > widest_prefix(es, k - 1, column_end) {
            assert(prefix_shown_len(es[k - 1].0.level, es[k - 1].1.title@, column_end)
                == widest_prefix(es, k, column_end));
        }
    }
}

/// How many rows of entries one frame shows: the pane's inner height,
/// one less when the overflow summary needs its row.
pub open spec fn frame_rows(es: Seq<(TreeKey, TreeValue)>, window_size: Rect) -> int {
    let inner_h: int = if window_size.height >= 2 {
        window_size.height - 2
    } else {
        0
    };
    let h: int = if es.len() > inner_h && inner_h >= 1 {
        inner_h - 1
    } else {
        inner_h
    };
    if es.len() < h {
        es.len() as int
    } else {
        h
    }
}

/// Composes one frame: the pane title, the indented entry titles, their
/// progress column, and — exactly when not every entry fits the pane's
/// inner height — the one-line overflow summary.  A window too small to
/// hold anything draws nothing.  The entries are handed back for the
/// next frame.
pub fn draw_everything(
    entries: Vec<(TreeKey, TreeValue)>,
    window_size: Rect,
    buf: &mut Vec<Span>,
) -> (r: Vec<(TreeKey, TreeValue)>)
    requires
        window_size.y + window_size.height <= u16::MAX,
        window_size.x + window_size.width <= u16::MAX,
    ensures
        r == entries,
        window_size.width == 0 || window_size.height == 0 ==> final (buf)@ == old(buf)@,
        window_size.width >= 1 && window_size.height >= 1 ==> ({
            let l0 = old(buf)@.len() as int;
            let inner_h: int = if window_size.height >= 2 {
                window_size.height - 2
            } else {
                0
            };
            let inner_w: int = if window_size.width >= 2 {
                window_size.width - 2
            } else {
                0
            };
            let overflowing = entries@.len() > inner_h;
            let h: int = if overflowing && inner_h >= 1 {
                inner_h - 1
            } else {
                inner_h
            };
            let k = frame_rows(entries@, window_size);
            let column_end: u16 = (inner_w / 2) as u16;
            let wp = widest_prefix(entries@, k, column_end);
            let xoff: int = 1 + (if wp < column_end {
                wp as int
            } else {
                column_end as int
            });
            let mw: u16 = (if inner_w >= xoff {
                inner_w - xoff
            } else {
                0int
            }) as u16;
            &&& final (buf)@.len() == l0 + 1 + 2 * k + (if overflowing {
                1int
            } else {
                0int
            })
            &&& final (buf)@.take(l0) == old(buf)@
            &&& final (buf)@[l0].x == window_size.x + 1
            &&& final (buf)@[l0].y == window_size.y
            &&& final (buf)@[l0].text@ == "Progress Tree"@
            &&& forall|i: int|
                0 <= i < k ==> {
                    let s = #[trigger] final (buf)@[l0 + 1 + i];
                    &&& s.x == window_size.x + 1
                    &&& s.y == window_size.y + 1 + i
                    &&& s.text@ == truncated_prefix(
                        entries@[i].0.level,
                        entries@[i].1.title@,
                        column_end,
                    )
                }
            &&& forall|i: int|
                0 <= i < k ==> {
                    let s = #[trigger] final (buf)@[l0 + 1 + k + i];
                    &&& s.x == xoff
                    &&& s.y == window_size.y + 1 + i
                    &&& s.text@ == progress_line(entries@[i].1.progress, mw)
                }
            &&& overflowing ==> {
                let s = final (buf)@.last();
                &&& s.x == window_size.x + 1
                &&& s.y == window_size.y + 1 + h
                &&& s.text@ == overflow_text(entries@, h)
            }
        }),
{
    if window_size.width == 0 || window_size.height == 0 {
        return entries;
    }
    let ghost l0 = buf@.len() as int;
    let ghost buf0 = buf@;
    let title = Span { x: window_size.x + 1, y: window_size.y, text: "Progress Tree".to_owned() };
    buf.push(title);
    let ghost buf_title = buf@;
    let inner_w: u16 = if window_size.width >= 2 {
        window_size.width - 2
    } else {
        0
    };
    let inner_h: u16 = if window_size.height >= 2 {
        window_size.height - 2
    } else {
        0
    };
    let mut current = Rect {
        x: window_size.x + 1,
        y: window_size.y + 1,
        width: inner_w,
        height: inner_h,
    };
    let is_overflowing = entries.len() > current.height as usize;
    if is_overflowing {
        current.height = if current.height >= 1 {
            current.height - 1
        } else {
            0
        };
    }
    let ghost k = frame_rows(entries@, window_size);
    proof {
        assert(k == if entries@.len() < current.height as int {
            entries@.len() as int
        } else {
            current.height as int
        });
    }
    let column_end = current.width / 2;
    let found_max = draw_tree_prefix(&entries, buf, current, column_end);
    let ghost buf_prefixes = buf@;
    let max_prefix_len = match found_max {
        None => 0,
        Some(m) => {
            proof {
                lemma_widest_prefix(entries@, k, column_end);
                assert(m == widest_prefix(entries@, k, column_end));
            }
            if m < column_end {
                m
            } else {
                column_end
            }
        },
    };
    proof {
        let wp = widest_prefix(entries@, k, column_end);
        assert(max_prefix_len == if wp < column_end {
            wp
        } else {
            column_end
        });
    }
    draw_progress(&entries, buf, current, max_prefix_len);
    let ghost buf_progress = buf@;
    if is_overflowing {
        proof {
            assert((current.height as int) < entries@.len());
        }
        let overflow_rect = Rect {
            x: current.x,
            y: current.y + current.height,
            width: current.width,
            height: 1,
        };
        draw_overflow(&entries, current.height as usize, buf, overflow_rect);
    }
    proof {
        assert forall|idx: int| 0 <= idx < buf_progress.len() implies #[trigger] buf@[idx]
            == buf_progress[idx] by {
            if is_overflowing {
                assert(buf@.take(buf_progress.len() as int)[idx] == buf@[idx]);
            }
        }
        assert forall|idx: int| 0 <= idx < buf_prefixes.len() implies #[trigger] buf_progress[idx]
            == buf_prefixes[idx] by {
            assert(buf_progress.take(buf_prefixes.len() as int)[idx] == buf_progress[idx]);
        }
        assert forall|idx: int| 0 <= idx < buf_title.len() implies #[trigger] buf_prefixes[idx]
            == buf_title[idx] by {
            assert(buf_prefixes.take(buf_title.len() as int)[idx] == buf_prefixes[idx]);
        }
        assert(buf@[l0] == buf_title[l0]);
        assert(buf@.take(l0) =~= buf0);
    }
    entries
}

} // verus!
