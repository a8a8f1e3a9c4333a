//! What holds of rewriting a text without its repeated lines.

use crate::counting::{
    count_of, empty_line, first_seen, join_with, kept, rewrite, scan, squashed, whole, LineView,
};
use vstd::prelude::*;

verus! {

/// Adding a character to the last piece adds it to the end of the joined text.
pub proof fn lemma_join_grow(pieces: Seq<Seq<char>>, delimiter: char, c: char)
    requires
        pieces.len() >= 1,
    ensures
        join_with(pieces.update(pieces.len() - 1, pieces.last().push(c)), delimiter) == join_with(
            pieces,
            delimiter,
        ).push(c),
{
    let grown = pieces.update(pieces.len() - 1, pieces.last().push(c));
    if pieces.len() > 1 {
        assert(grown.drop_last() == pieces.drop_last());
    }
}

/// The content of a line with the raw text `raw`: `raw` without each squashed
/// character.
pub open spec fn squeeze(raw: Seq<char>, squash: Seq<char>) -> Seq<char>
    decreases raw.len(),
{
    if raw.len() == 0 {
        Seq::empty()
    } else if squashed(raw, raw.len() - 1, squash) {
        squeeze(raw.drop_last(), squash)
    } else {
        squeeze(raw.drop_last(), squash).push(raw.last())
    }
}

/// A raw text that is not empty has a content that is not empty: its first
/// character is never squashed.
pub proof fn lemma_squeeze_filled(raw: Seq<char>, squash: Seq<char>)
    requires
        raw.len() > 0,
    ensures
        squeeze(raw, squash).len() > 0,
    decreases raw.len(),
{
    if raw.len() > 1 {
        lemma_squeeze_filled(raw.drop_last(), squash);
    } else {
        assert(!squashed(raw, 0, squash));
    }
}

/// Every character of `text` is `c`.
pub open spec fn all_are(text: Seq<char>, c: char) -> bool {
    forall|k: int| 0 <= k < text.len() ==> text[k] == c
}

/// What holds of the lines of every text: no raw text holds the delimiter,
/// each content is what the raw text alone gives, each lead is made of
/// delimiters and is empty unless the delimiter is squashed, and the first
/// line has no lead.
pub open spec fn scanned_ok(text: Seq<char>, delimiter: char, squash: Seq<char>) -> bool {
    let lines = scan(text, delimiter, squash);
    &&& lines.len() >= 1
    &&& forall|i: int|
        0 <= i < lines.len() ==> {
            &&& !(#[trigger] lines[i]).1.contains(delimiter)
            &&& lines[i].0 == squeeze(lines[i].1, squash)
            &&& all_are(lines[i].2, delimiter)
            &&& lines[i].2.len() > 0 ==> squash.contains(delimiter)
        }
    &&& lines[0].2.len() == 0
    &&& lines.len() == 1 ==> lines[0].1 == text
    &&& lines.last().1.len() > 0 ==> text.len() > 0 && text.last() == lines.last().1.last()
    &&& lines.last().1.len() == 0 && text.len() > 0 ==> text.last() == delimiter
}

/// The lines of every text are as `scanned_ok` says.
pub proof fn lemma_scanned_ok(text: Seq<char>, delimiter: char, squash: Seq<char>)
    ensures
        scanned_ok(text, delimiter, squash),
    decreases text.len(),
{
    let lines = scan(text, delimiter, squash);
    if text.len() == 0 {
        assert(lines[0].1 =~= text);
    } else {
        let shorter = text.drop_last();
        lemma_scanned_ok(shorter, delimiter, squash);
        let had = scan(shorter, delimiter, squash);
        let c = text.last();
        let open = had.last();
        let at = had.len() - 1;
        assert(text == shorter.push(c));
        if squashed(text, text.len() - 1, squash) && c == delimiter {
            // The character before is the delimiter: the open line has no
            // raw text, and is not the first line.
            assert(shorter.last() == delimiter);
            if open.1.len() > 0 {
                assert(open.1[open.1.len() - 1] == delimiter);
            }
            if at == 0 {
                assert(shorter[shorter.len() - 1] == delimiter);
            }
            assert forall|i: int| 0 <= i < lines.len() implies {
                &&& !(#[trigger] lines[i]).1.contains(delimiter)
                &&& lines[i].0 == squeeze(lines[i].1, squash)
                &&& all_are(lines[i].2, delimiter)
                &&& lines[i].2.len() > 0 ==> squash.contains(delimiter)
            } by {
                if i < at {
                    assert(lines[i] == had[i]);
                }
            }
        } else if squashed(text, text.len() - 1, squash) || c != delimiter {
            let grown = open.1.push(c);
            assert(grown.drop_last() == open.1);
            assert(lines[at].1 == grown);
            // The open line has raw text before a squashed character.
            if squashed(text, text.len() - 1, squash) {
                assert(shorter.last() == c);
                assert(open.1.len() > 0);
            }
            assert(squashed(grown, grown.len() - 1, squash) == squashed(
                text,
                text.len() - 1,
                squash,
            ));
            assert(!grown.contains(delimiter)) by {
                if grown.contains(delimiter) {
                    let k = choose|k: int| 0 <= k < grown.len() && grown[k] == delimiter;
                    if k < open.1.len() {
                        assert(open.1[k] == delimiter);
                    }
                }
            }
            assert forall|i: int| 0 <= i < lines.len() implies {
                &&& !(#[trigger] lines[i]).1.contains(delimiter)
                &&& lines[i].0 == squeeze(lines[i].1, squash)
                &&& all_are(lines[i].2, delimiter)
                &&& lines[i].2.len() > 0 ==> squash.contains(delimiter)
            } by {
                if i < at {
                    assert(lines[i] == had[i]);
                }
            }
            if at == 0 {
                assert(grown == text);
            }
        } else {
            // A delimiter that ends the open line.
            assert(lines == had.push(empty_line()));
            assert forall|i: int| 0 <= i < lines.len() implies {
                &&& !(#[trigger] lines[i]).1.contains(delimiter)
                &&& lines[i].0 == squeeze(lines[i].1, squash)
                &&& all_are(lines[i].2, delimiter)
                &&& lines[i].2.len() > 0 ==> squash.contains(delimiter)
            } by {
                if i < had.len() {
                    assert(lines[i] == had[i]);
                }
            }
        }
    }
}

/// A text is what stands between its delimiters, with one delimiter between
/// each two: cutting it into lines loses nothing.
pub proof fn lemma_join_whole(text: Seq<char>, delimiter: char, squash: Seq<char>)
    ensures
        scan(text, delimiter, squash).len() >= 1,
        join_with(whole(scan(text, delimiter, squash)), delimiter) == text,
    decreases text.len(),
{
    let lines = scan(text, delimiter, squash);
    if text.len() > 0 {
        let shorter = text.drop_last();
        lemma_join_whole(shorter, delimiter, squash);
        lemma_scanned_ok(shorter, delimiter, squash);
        let had = scan(shorter, delimiter, squash);
        let open = had.last();
        let c = text.last();
        assert(text == shorter.push(c));
        if !squashed(text, text.len() - 1, squash) && c == delimiter {
            assert(whole(lines).drop_last() == whole(had));
            assert(whole(lines).last() == Seq::<char>::empty());
            assert(join_with(whole(had), delimiter).push(delimiter) + Seq::<char>::empty()
                == shorter.push(c));
        } else {
            if squashed(text, text.len() - 1, squash) && c == delimiter {
                assert(shorter.last() == delimiter);
                if open.1.len() > 0 {
                    assert(open.1[open.1.len() - 1] == delimiter);
                }
                assert(open.2.push(c) + open.1 == (open.2 + open.1).push(c));
            } else {
                assert(open.2 + open.1.push(c) == (open.2 + open.1).push(c));
            }
            assert(whole(lines) == whole(had).update(had.len() - 1, whole(had).last().push(c)));
            lemma_join_grow(whole(had), delimiter, c);
        }
    } else {
        assert(whole(lines)[0] == text);
    }
}

/// Where no two lines that are not empty have the same content, rewriting a
/// text changes nothing.
pub proof fn lemma_rewrite_of_distinct_lines(text: Seq<char>, delimiter: char, squash: Seq<char>)
    requires
        forall|i: int, j: int|
            0 <= i < j < scan(text, delimiter, squash).len() && (#[trigger] scan(
                text,
                delimiter,
                squash,
            )[j]).0.len() > 0 ==> (#[trigger] scan(text, delimiter, squash)[i]).0 != scan(
                text,
                delimiter,
                squash,
            )[j].0,
    ensures
        rewrite(text, delimiter, squash) == text,
{
    let lines = scan(text, delimiter, squash);
    lemma_scanned_ok(text, delimiter, squash);
    assert(kept(lines) =~= whole(lines)) by {
        assert forall|i: int| 0 <= i < lines.len() implies kept(lines)[i] == whole(lines)[i] by {
            // A line that is not kept is empty.
            if !first_seen(lines, i) && lines[i].1.len() > 0 {
                lemma_squeeze_filled(lines[i].1, squash);
            }
        }
    }
    lemma_join_whole(text, delimiter, squash);
}

/// The count of a character in two texts put together is the sum of its
/// counts in each.
pub proof fn lemma_count_add(a: Seq<char>, b: Seq<char>, c: char)
    ensures
        count_of(a + b, c) == count_of(a, c) + count_of(b, c),
    decreases b.len(),
{
    if b.len() != 0 {
        assert((a + b).drop_last() == a + b.drop_last());
        lemma_count_add(a, b.drop_last(), c);
    }
}

/// A text that does not hold a character holds it zero times.
pub proof fn lemma_count_absent(a: Seq<char>, c: char)
    requires
        !a.contains(c),
    ensures
        count_of(a, c) == 0,
    decreases a.len(),
{
    if a.len() > 0 {
        assert(!a.drop_last().contains(c));
        lemma_count_absent(a.drop_last(), c);
    }
}

/// Pieces that are cut down without losing a delimiter give a joined text
/// that is no longer and holds as many delimiters.
proof fn lemma_join_cut(cut: Seq<Seq<char>>, full: Seq<Seq<char>>, delimiter: char)
    requires
        cut.len() == full.len(),
        forall|i: int|
            0 <= i < cut.len() ==> (#[trigger] cut[i]).len() <= full[i].len() && count_of(
                cut[i],
                delimiter,
            ) == count_of(full[i], delimiter),
    ensures
        join_with(cut, delimiter).len() <= join_with(full, delimiter).len(),
        count_of(join_with(cut, delimiter), delimiter) == count_of(
            join_with(full, delimiter),
            delimiter,
        ),
    decreases cut.len(),
{
    if cut.len() >= 2 {
        assert forall|i: int| 0 <= i < cut.drop_last().len() implies (
        #[trigger] cut.drop_last()[i]).len() <= full.drop_last()[i].len() && count_of(
            cut.drop_last()[i],
            delimiter,
        ) == count_of(full.drop_last()[i], delimiter) by {}
        lemma_join_cut(cut.drop_last(), full.drop_last(), delimiter);
        let a = join_with(cut.drop_last(), delimiter).push(delimiter);
        let b = join_with(full.drop_last(), delimiter).push(delimiter);
        assert(a.drop_last() == join_with(cut.drop_last(), delimiter));
        assert(b.drop_last() == join_with(full.drop_last(), delimiter));
        lemma_count_add(a, cut.last(), delimiter);
        lemma_count_add(b, full.last(), delimiter);
    }
}

/// Rewriting takes no delimiter away: the rewritten text holds the delimiter
/// as often as the text does, squashed repeats included, and is no longer
/// than the text.
pub proof fn lemma_rewrite_keeps_delimiters(text: Seq<char>, delimiter: char, squash: Seq<char>)
    ensures
        count_of(rewrite(text, delimiter, squash), delimiter) == count_of(text, delimiter),
        rewrite(text, delimiter, squash).len() <= text.len(),
{
    let lines = scan(text, delimiter, squash);
    lemma_scanned_ok(text, delimiter, squash);
    assert forall|i: int| 0 <= i < lines.len() implies (#[trigger] kept(lines)[i]).len() <= whole(
        lines,
    )[i].len() && count_of(kept(lines)[i], delimiter) == count_of(whole(lines)[i], delimiter) by {
        lemma_count_add(lines[i].2, lines[i].1, delimiter);
        lemma_count_absent(lines[i].1, delimiter);
    }
    lemma_join_cut(kept(lines), whole(lines), delimiter);
    lemma_join_whole(text, delimiter, squash);
}

/// A text without a delimiter is one line.
proof fn lemma_scan_plain(text: Seq<char>, delimiter: char, squash: Seq<char>)
    requires
        !text.contains(delimiter),
    ensures
        scan(text, delimiter, squash) == seq![(squeeze(text, squash), text, Seq::<char>::empty())],
    decreases text.len(),
{
    if text.len() > 0 {
        let shorter = text.drop_last();
        assert(!shorter.contains(delimiter)) by {
            if shorter.contains(delimiter) {
                let k = choose|k: int| 0 <= k < shorter.len() && shorter[k] == delimiter;
                assert(text[k] == delimiter);
            }
        }
        lemma_scan_plain(shorter, delimiter, squash);
        assert(text[text.len() - 1] != delimiter);
        assert(text == shorter.push(text.last()));
        assert(scan(text, delimiter, squash) =~= seq![
            (squeeze(text, squash), text, Seq::<char>::empty()),
        ]);
    } else {
        assert(text =~= Seq::<char>::empty());
    }
}

/// Behind a delimiter, squashed repeats of it go into the lead of the open
/// line.
proof fn lemma_scan_lead(head: Seq<char>, lead: Seq<char>, delimiter: char, squash: Seq<char>)
    requires
        head.len() > 0,
        head.last() == delimiter,
        all_are(lead, delimiter),
        lead.len() > 0 ==> squash.contains(delimiter),
    ensures
        scan(head, delimiter, squash).len() >= 1,
        scan(head + lead, delimiter, squash) == scan(head, delimiter, squash).update(
            scan(head, delimiter, squash).len() - 1,
            (
                scan(head, delimiter, squash).last().0,
                scan(head, delimiter, squash).last().1,
                scan(head, delimiter, squash).last().2 + lead,
            ),
        ),
    decreases lead.len(),
{
    let start = scan(head, delimiter, squash);
    lemma_join_whole(head, delimiter, squash);
    let at = start.len() - 1;
    let open = start.last();
    if lead.len() == 0 {
        assert(head + lead == head);
        assert(open.2 + lead == open.2);
        assert(start.update(at, open) == start);
    } else {
        let shorter = lead.drop_last();
        assert(all_are(shorter, delimiter)) by {
            assert forall|k: int| 0 <= k < shorter.len() implies shorter[k] == delimiter by {
                assert(lead[k] == delimiter);
            }
        }
        lemma_scan_lead(head, shorter, delimiter, squash);
        let text = head + lead;
        assert(text.drop_last() == head + shorter);
        assert(lead[lead.len() - 1] == delimiter);
        assert(text.last() == delimiter);
        assert(text[text.len() - 2] == delimiter) by {
            if shorter.len() > 0 {
                assert(lead[lead.len() - 2] == delimiter);
            }
        }
        assert((open.2 + shorter).push(delimiter) == open.2 + lead);
        assert(scan(text, delimiter, squash) =~= start.update(at, (open.0, open.1, open.2 + lead)));
    }
}

/// Behind a delimiter, a text without delimiters goes into the open line as
/// a whole.
proof fn lemma_scan_body(head: Seq<char>, body: Seq<char>, delimiter: char, squash: Seq<char>)
    requires
        head.len() > 0,
        head.last() == delimiter,
        !body.contains(delimiter),
    ensures
        scan(head, delimiter, squash).len() >= 1,
        scan(head + body, delimiter, squash) == scan(head, delimiter, squash).update(
            scan(head, delimiter, squash).len() - 1,
            (
                scan(head, delimiter, squash).last().0 + squeeze(body, squash),
                scan(head, delimiter, squash).last().1 + body,
                scan(head, delimiter, squash).last().2,
            ),
        ),
    decreases body.len(),
{
    let start = scan(head, delimiter, squash);
    lemma_join_whole(head, delimiter, squash);
    let at = start.len() - 1;
    let open = start.last();
    if body.len() == 0 {
        assert(head + body == head);
        assert(open.0 + squeeze(body, squash) == open.0);
        assert(open.1 + body == open.1);
        assert(start.update(at, open) == start);
    } else {
        let shorter = body.drop_last();
        let c = body.last();
        assert(!shorter.contains(delimiter)) by {
            if shorter.contains(delimiter) {
                let k = choose|k: int| 0 <= k < shorter.len() && shorter[k] == delimiter;
                assert(body[k] == delimiter);
            }
        }
        lemma_scan_body(head, shorter, delimiter, squash);
        let text = head + body;
        assert(text.drop_last() == head + shorter);
        assert(text.last() == c);
        assert(body[body.len() - 1] == c);
        assert(c != delimiter);
        assert(squashed(text, text.len() - 1, squash) == squashed(body, body.len() - 1, squash)) by {
            if body.len() >= 2 {
                assert(text[text.len() - 2] == body[body.len() - 2]);
            } else {
                assert(text[text.len() - 2] == delimiter);
            }
        }
        let content = open.0 + squeeze(shorter, squash);
        assert((open.1 + shorter).push(c) == open.1 + body);
        if squashed(text, text.len() - 1, squash) {
            assert(scan(text, delimiter, squash) =~= start.update(
                at,
                (content, open.1 + body, open.2),
            ));
        } else {
            assert(content.push(c) == open.0 + squeeze(body, squash));
            assert(scan(text, delimiter, squash) =~= start.update(
                at,
                (content.push(c), open.1 + body, open.2),
            ));
        }
    }
}

/// Whether `key` is the content of a kept line among the first `count`.
pub open spec fn is_kept_key(lines: Seq<LineView>, count: int, key: Seq<char>) -> bool {
    exists|t: int| 0 <= t < count && first_seen(lines, t) && (#[trigger] lines[t]).0 == key
}

/// The raw text of line `j` where it is kept, nothing where it is not.
pub open spec fn kept_raw(lines: Seq<LineView>, j: int) -> Seq<char> {
    if first_seen(lines, j) {
        lines[j].1
    } else {
        Seq::empty()
    }
}

/// What the lines of the rewritten text are, up to line `j` of the text: the
/// last of them has what is kept of line `j`; each has no content or that of
/// a kept line; and each that has raw text is the first with its content.
pub open spec fn second_scan_ok(
    text: Seq<char>,
    delimiter: char,
    squash: Seq<char>,
    j: int,
) -> bool {
    let lines = scan(text, delimiter, squash);
    let once = join_with(kept(lines).take(j + 1), delimiter);
    let again = scan(once, delimiter, squash);
    let body = kept_raw(lines, j);
    &&& again.len() >= 1
    &&& again.last().1 == body
    &&& again.last().0 == squeeze(body, squash)
    &&& body.len() > 0 ==> once.len() > 0 && once.last() == body.last()
    &&& body.len() == 0 && once.len() > 0 ==> once.last() == delimiter
    &&& forall|a: int|
        0 <= a < again.len() ==> (#[trigger] again[a]).0.len() == 0 || is_kept_key(
            lines,
            j + 1,
            again[a].0,
        )
    &&& forall|a: int|
        0 <= a < again.len() && (#[trigger] again[a]).1.len() > 0 ==> first_seen(again, a)
}

proof fn lemma_second_scan(text: Seq<char>, delimiter: char, squash: Seq<char>, j: int)
    requires
        0 <= j < scan(text, delimiter, squash).len(),
    ensures
        second_scan_ok(text, delimiter, squash, j),
    decreases j,
{
    let lines = scan(text, delimiter, squash);
    let pieces = kept(lines);
    let once = join_with(pieces.take(j + 1), delimiter);
    let again = scan(once, delimiter, squash);
    let body = kept_raw(lines, j);
    lemma_scanned_ok(text, delimiter, squash);
    assert(first_seen(lines, j) ==> lines[j].0 == squeeze(body, squash));
    assert(!body.contains(delimiter)) by {
        assert(!lines[j].1.contains(delimiter));
    }
    if j == 0 {
        assert(first_seen(lines, 0));
        assert(pieces.take(1)[0] == lines[0].2 + lines[0].1);
        assert(lines[0].2 + lines[0].1 == lines[0].1);
        assert(once == body);
        lemma_scan_plain(once, delimiter, squash);
        assert(is_kept_key(lines, 1, lines[0].0));
    } else {
        lemma_second_scan(text, delimiter, squash, j - 1);
        let earlier = join_with(pieces.take(j), delimiter);
        let had = scan(earlier, delimiter, squash);
        let before = kept_raw(lines, j - 1);
        assert(!before.contains(delimiter)) by {
            assert(!lines[j - 1].1.contains(delimiter));
        }
        assert(pieces.take(j + 1).drop_last() == pieces.take(j));
        assert(pieces.take(j + 1).last() == pieces[j]);
        let lead = lines[j].2;
        assert(pieces[j] == lead + body);
        let head = earlier.push(delimiter);
        assert(head.drop_last() == earlier);
        let mid = scan(head, delimiter, squash);
        // Behind the delimiter the open line is empty, whether it is a new
        // line or the one that was open before.
        if squashed(head, head.len() - 1, squash) {
            assert(earlier.last() == delimiter);
            if before.len() > 0 {
                assert(before[before.len() - 1] == delimiter);
            }
            assert(had.last().1.len() == 0);
            assert(had.last().0 =~= Seq::<char>::empty());
        }
        assert(mid.last().0 =~= Seq::<char>::empty());
        assert(mid.last().1 =~= Seq::<char>::empty());
        assert forall|a: int| 0 <= a < mid.len() - 1 implies mid[a] == had[a] by {}
        lemma_scan_lead(head, lead, delimiter, squash);
        let longer = head + lead;
        assert(longer.last() == delimiter) by {
            if lead.len() > 0 {
                assert(lead[lead.len() - 1] == delimiter);
            }
        }
        lemma_scan_body(longer, body, delimiter, squash);
        assert(once == longer + body) by {
            assert(head + (lead + body) == (head + lead) + body);
        }
        assert(again.len() == mid.len());
        assert(again.last().0 == squeeze(body, squash)) by {
            assert(Seq::<char>::empty() + squeeze(body, squash) == squeeze(body, squash));
        }
        assert(again.last().1 == body) by {
            assert(Seq::<char>::empty() + body == body);
        }
        assert forall|a: int| 0 <= a < again.len() - 1 implies again[a] == had[a] by {
            assert(again[a] == mid[a]);
        }
        if body.len() > 0 {
            assert(once.last() == body.last());
            lemma_squeeze_filled(body, squash);
        } else {
            assert(once == longer);
        }
        assert forall|a: int| 0 <= a < again.len() implies (#[trigger] again[a]).0.len() == 0
            || is_kept_key(lines, j + 1, again[a].0) by {
            if a < again.len() - 1 {
                assert(again[a] == had[a]);
                if had[a].0.len() > 0 {
                    assert(is_kept_key(lines, j, had[a].0));
                    let t = choose|t: int|
                        0 <= t < j && first_seen(lines, t) && (#[trigger] lines[t]).0 == had[a].0;
                    assert(lines[t].0 == again[a].0);
                }
            } else if first_seen(lines, j) {
                assert(lines[j].0 == again[a].0);
            }
        }
        assert forall|a: int| 0 <= a < again.len() && (#[trigger] again[a]).1.len()
            > 0 implies first_seen(again, a) by {
            if a < again.len() - 1 {
                assert(again[a] == had[a]);
                assert(first_seen(had, a));
                assert forall|b: int| 0 <= b < a implies (#[trigger] again[b]).0 != again[a].0 by {
                    assert(again[b] == had[b]);
                }
            } else {
                assert(first_seen(lines, j));
                assert forall|b: int| 0 <= b < a implies (#[trigger] again[b]).0 != again[a].0 by {
                    assert(again[b] == had[b]);
                    if had[b].0.len() > 0 {
                        assert(is_kept_key(lines, j, had[b].0));
                        let t = choose|t: int|
                            0 <= t < j && first_seen(lines, t) && (#[trigger] lines[t]).0
                                == had[b].0;
                        assert(lines[t].0 != lines[j].0);
                    }
                }
            }
        }
    }
}

/// Rewriting a text a second time changes nothing.
pub proof fn lemma_rewrite_idempotent(text: Seq<char>, delimiter: char, squash: Seq<char>)
    ensures
        rewrite(rewrite(text, delimiter, squash), delimiter, squash) == rewrite(
            text,
            delimiter,
            squash,
        ),
{
    let lines = scan(text, delimiter, squash);
    lemma_scanned_ok(text, delimiter, squash);
    let pieces = kept(lines);
    assert(pieces.take(lines.len() as int) == pieces);
    let once = join_with(pieces, delimiter);
    lemma_second_scan(text, delimiter, squash, lines.len() - 1);
    let again = scan(once, delimiter, squash);
    assert(kept(again) =~= whole(again)) by {
        assert forall|a: int| 0 <= a < again.len() implies kept(again)[a] == whole(again)[a] by {}
    }
    lemma_join_whole(once, delimiter, squash);
}

} // verus!
