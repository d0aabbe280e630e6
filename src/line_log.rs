//! The output log: each record that was fetched becomes one line, its
//! serialized form followed by a line terminator. Appends are whole lines,
//! so the log read back splits into exactly the lines that were appended.
use vstd::prelude::*;

verus! {

/// The line terminator.
pub const NEWLINE: u8 = 10;

/// A line's body holds no terminator.
pub open spec fn is_line(b: Seq<u8>) -> bool {
    !b.contains(NEWLINE)
}

/// Every body in `lines` is a line.
pub open spec fn all_lines(lines: Seq<Seq<u8>>) -> bool {
    forall|i: int| 0 <= i < lines.len() ==> is_line(#[trigger] lines[i])
}

/// The bytes that appending `lines` in order writes: each body followed by
/// the terminator.
pub open spec fn log_of(lines: Seq<Seq<u8>>) -> Seq<u8>
    decreases lines.len(),
{
    if lines.len() == 0 {
        Seq::empty()
    } else {
        lines[0] + seq![NEWLINE] + log_of(lines.drop_first())
    }
}

/// The byte contents of each buffer.
pub open spec fn views(v: Seq<Vec<u8>>) -> Seq<Seq<u8>> {
    v.map_values(|b: Vec<u8>| b@)
}

/// The buffer to append for one serialized record: the body and the
/// terminator, or `None` where the body holds a terminator of its own and
/// would not stay one line.
pub fn frame_line(body: &Vec<u8>) -> (r: Option<Vec<u8>>)
    ensures
        r.is_some() <==> is_line(body@),
        r.is_some() ==> r.unwrap()@ == body@.push(NEWLINE),
        r.is_some() ==> r.unwrap()@ == log_of(seq![body@]),
{
    let mut out: Vec<u8> = Vec::new();
    let mut i: usize = 0;
    while i < body.len()
        invariant
            i <= body@.len(),
            out@ == body@.subrange(0, i as int),
            is_line(out@),
        decreases body@.len() - i,
    {
        if body[i] == NEWLINE {
            assert(body@[i as int] == NEWLINE);
            return None;
        }
        out.push(body[i]);
        i = i + 1;
        proof {
            assert(out@ =~= body@.subrange(0, i as int));
        }
    }
    assert(out@ =~= body@);
    out.push(NEWLINE);
    proof {
        lemma_log_single(body@);
    }
    Some(out)
}

/// The log of one line is that line and the terminator.
proof fn lemma_log_single(l: Seq<u8>)
    ensures
        log_of(seq![l]) == l.push(NEWLINE),
{
    let one = seq![l];
    assert(one[0] == l);
    assert(one.drop_first() =~= Seq::<Seq<u8>>::empty());
    assert(log_of(one.drop_first()) == Seq::<u8>::empty());
    assert(log_of(one) =~= l.push(NEWLINE));
}

/// The complete lines of a log, in order, without their terminators. Bytes
/// after the last terminator (a line still being written) are no line yet
/// and are left out.
pub fn split_lines(log: &Vec<u8>) -> (r: Vec<Vec<u8>>)
    ensures
        all_lines(views(r@)),
        log_of(views(r@)).len() <= log@.len(),
        log@ == log_of(views(r@)) + log@.subrange(log_of(views(r@)).len() as int, log@.len() as int),
        is_line(log@.subrange(log_of(views(r@)).len() as int, log@.len() as int)),
{
    let mut out: Vec<Vec<u8>> = Vec::new();
    let mut cur: Vec<u8> = Vec::new();
    let mut i: usize = 0;
    while i < log.len()
        invariant
            i <= log@.len(),
            log_of(views(out@)) + cur@ == log@.subrange(0, i as int),
            all_lines(views(out@)),
            is_line(cur@),
        decreases log@.len() - i,
    {
        let byte = log[i];
        proof {
            assert(log@.subrange(0, i + 1) =~= log@.subrange(0, i as int).push(byte));
        }
        if byte == NEWLINE {
            let ghost prev = views(out@);
            let ghost line = cur@;
            out.push(cur);
            cur = Vec::new();
            proof {
                assert(views(out@) =~= prev + seq![line]);
                lemma_log_concat(prev, seq![line]);
                lemma_log_single(line);
                assert(log_of(views(out@)) == log_of(prev) + line.push(NEWLINE));
                assert(log_of(views(out@)) + cur@ =~= log@.subrange(0, i + 1));
            }
        } else {
            cur.push(byte);
            proof {
                assert(log_of(views(out@)) + cur@ =~= log@.subrange(0, i + 1));
                assert forall|k: int| 0 <= k < cur@.len() implies cur@[k] != NEWLINE by {
                    if k < cur@.len() - 1 {
                        assert(cur@[k] == cur@.drop_last()[k]);
                    }
                }
            }
        }
        i = i + 1;
    }
    proof {
        let n = log_of(views(out@)).len() as int;
        assert(log@.subrange(0, log@.len() as int) =~= log@);
        assert(log@.subrange(n, log@.len() as int) =~= cur@);
    }
    out
}

/// Splitting a log that whole-line appends wrote gives back exactly the
/// lines appended, in the order they were appended.
pub proof fn lemma_split_recovers(lines: Seq<Seq<u8>>, found: Seq<Seq<u8>>, rest: Seq<u8>)
    requires
        all_lines(lines),
        all_lines(found),
        is_line(rest),
        log_of(lines) == log_of(found) + rest,
    ensures
        found == lines,
        rest.len() == 0,
    decreases lines.len(),
{
    if found.len() == 0 {
        if lines.len() > 0 {
            assert(rest == log_of(lines));
            let l = lines[0];
            assert(rest[l.len() as int] == NEWLINE);
            assert(rest.contains(rest[l.len() as int]));
        }
        assert(lines =~= found);
    } else if lines.len() == 0 {
        assert(log_of(found).len() > 0);
    } else {
        assert(is_line(lines[0]) && is_line(found[0]));
        assert(log_of(found) + rest =~= found[0] + seq![NEWLINE] + (log_of(found.drop_first())
            + rest));
        lemma_first_line(lines[0], found[0], log_of(lines.drop_first()), log_of(found.drop_first()) + rest);
        assert(all_lines(lines.drop_first()));
        assert(all_lines(found.drop_first()));
        lemma_split_recovers(lines.drop_first(), found.drop_first(), rest);
        assert(lines =~= seq![lines[0]] + lines.drop_first());
        assert(found =~= seq![found[0]] + found.drop_first());
    }
}

/// Appending two runs of lines writes the bytes of the first, then those of
/// the second.
pub proof fn lemma_log_concat(a: Seq<Seq<u8>>, b: Seq<Seq<u8>>)
    ensures
        log_of(a + b) == log_of(a) + log_of(b),
    decreases a.len(),
{
    if a.len() == 0 {
        assert(a + b =~= b);
        assert(log_of(a) + log_of(b) =~= log_of(b));
    } else {
        lemma_log_concat(a.drop_first(), b);
        assert((a + b).drop_first() =~= a.drop_first() + b);
        assert(log_of(a + b) =~= log_of(a) + log_of(b));
    }
}

/// Two lines, each followed by a terminator, start two equal byte
/// sequences only if the lines are equal, and then so are the rests.
proof fn lemma_first_line(x: Seq<u8>, y: Seq<u8>, r1: Seq<u8>, r2: Seq<u8>)
    requires
        is_line(x),
        is_line(y),
        x + seq![NEWLINE] + r1 == y + seq![NEWLINE] + r2,
    ensures
        x == y,
        r1 == r2,
{
    let l = x + seq![NEWLINE] + r1;
    let m = y + seq![NEWLINE] + r2;
    if x.len() < y.len() {
        assert(l[x.len() as int] == NEWLINE);
        assert(m[x.len() as int] == y[x.len() as int]);
        assert(y.contains(y[x.len() as int]));
    } else if y.len() < x.len() {
        assert(m[y.len() as int] == NEWLINE);
        assert(l[y.len() as int] == x[y.len() as int]);
        assert(x.contains(x[y.len() as int]));
    }
    assert(x =~= l.subrange(0, x.len() as int));
    assert(y =~= m.subrange(0, y.len() as int));
    assert(r1 =~= l.subrange(x.len() as int + 1, l.len() as int));
    assert(r2 =~= m.subrange(y.len() as int + 1, m.len() as int));
}

/// Whole-line appends never blend: a log written by appending lines, in
/// whatever order the writers took turns, determines those lines and their
/// order exactly, so each appended record comes back intact.
pub proof fn lemma_log_determines_lines(a: Seq<Seq<u8>>, b: Seq<Seq<u8>>)
    requires
        all_lines(a),
        all_lines(b),
        log_of(a) == log_of(b),
    ensures
        a == b,
    decreases a.len(),
{
    if a.len() == 0 && b.len() == 0 {
        assert(a =~= b);
    } else if a.len() == 0 {
        assert(log_of(b).len() > 0);
    } else if b.len() == 0 {
        assert(log_of(a).len() > 0);
    } else {
        assert(is_line(a[0]) && is_line(b[0]));
        lemma_first_line(a[0], b[0], log_of(a.drop_first()), log_of(b.drop_first()));
        lemma_log_determines_lines(a.drop_first(), b.drop_first());
        assert(a =~= seq![a[0]] + a.drop_first());
        assert(b =~= seq![b[0]] + b.drop_first());
    }
}

/// Appending a further run of at least one line to a log keeps what was
/// there as a prefix and makes the log strictly longer: a second run on the
/// same log grows it, with any repeated records kept twice.
pub proof fn lemma_append_grows(before: Seq<Seq<u8>>, run: Seq<Seq<u8>>)
    requires
        run.len() > 0,
    ensures
        log_of(before + run) == log_of(before) + log_of(run),
        log_of(before + run).len() > log_of(before).len(),
        log_of(before + run).subrange(0, log_of(before).len() as int) == log_of(before),
{
    lemma_log_concat(before, run);
    assert(log_of(before + run).subrange(0, log_of(before).len() as int) =~= log_of(before));
}

} // verus!
