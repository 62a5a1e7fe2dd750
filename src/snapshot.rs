use vstd::prelude::*;
use crate::instance::{EC2Instance, InstanceView, opt_view};
use crate::collection::{EC2InstanceCollection, CollectionView};

verus! {

// Snapshot text. A string is written with `\` before each `\` and `;`, then `;`.
// An unset field is `-`; a set one is `+` and its string. A collection is its region,
// its profile, then each record: `#`, the id, and the state, name, group and health.

/// Characters that are written with a `\` before them.
pub open spec fn is_special(c: char) -> bool {
    c == '\\' || c == ';'
}

pub open spec fn esc_char(c: char) -> Seq<char> {
    if is_special(c) {
        seq!['\\', c]
    } else {
        seq![c]
    }
}

/// A string with its special characters escaped.
pub open spec fn esc(s: Seq<char>) -> Seq<char>
    decreases s.len(),
{
    if s.len() == 0 {
        Seq::empty()
    } else {
        esc(s.drop_last()) + esc_char(s.last())
    }
}

/// A string as a snapshot field: escaped, then closed by `;`.
pub open spec fn enc_field(s: Seq<char>) -> Seq<char> {
    esc(s) + seq![';']
}

/// An optional string as a snapshot field.
pub open spec fn enc_opt(o: Option<Seq<char>>) -> Seq<char> {
    match o {
        None => seq!['-'],
        Some(s) => seq!['+'] + enc_field(s),
    }
}

pub open spec fn enc_record(r: InstanceView) -> Seq<char> {
    seq!['#'] + enc_field(r.id) + enc_opt(r.state) + enc_opt(r.name) + enc_opt(
        r.autoscaling_group_name,
    ) + enc_opt(r.health)
}

pub open spec fn enc_records(s: Seq<InstanceView>) -> Seq<char>
    decreases s.len(),
{
    if s.len() == 0 {
        Seq::empty()
    } else {
        enc_records(s.drop_last()) + enc_record(s.last())
    }
}

/// The snapshot text of a collection.
pub open spec fn snapshot_of(c: CollectionView) -> Seq<char> {
    enc_opt(c.region) + enc_opt(c.profile) + enc_records(c.instances)
}

/// Why a snapshot text could not be read.
#[derive(Debug, PartialEq, Eq)]
pub enum SnapshotError {
    /// The text is not the snapshot of any collection.
    Malformed,
}

proof fn lemma_split(a: Seq<char>, x: Seq<char>, b: Seq<char>, y: Seq<char>)
    requires
        a + x == b + y,
        a.len() == b.len(),
    ensures
        a == b,
        x == y,
{
    assert(a =~= (a + x).take(a.len() as int));
    assert(b =~= (b + y).take(b.len() as int));
    assert(x =~= (a + x).skip(a.len() as int));
    assert(y =~= (b + y).skip(b.len() as int));
}

proof fn lemma_esc_concat(a: Seq<char>, b: Seq<char>)
    ensures
        esc(a + b) == esc(a) + esc(b),
    decreases b.len(),
{
    if b.len() == 0 {
        assert(a + b =~= a);
        assert(esc(a) + esc(b) =~= esc(a));
    } else {
        assert((a + b).drop_last() =~= a + b.drop_last());
        assert((a + b).last() == b.last());
        lemma_esc_concat(a, b.drop_last());
        assert(esc(a + b) =~= esc(a) + esc(b));
    }
}

proof fn lemma_esc_cons(s: Seq<char>)
    requires
        s.len() > 0,
    ensures
        esc(s) == esc_char(s[0]) + esc(s.skip(1)),
{
    assert(s =~= seq![s[0]] + s.skip(1));
    lemma_esc_concat(seq![s[0]], s.skip(1));
    let one = seq![s[0]];
    assert(one.last() == s[0]);
    assert(one.drop_last() =~= Seq::<char>::empty());
    assert(esc(one.drop_last()) == Seq::<char>::empty());
    assert(esc(one) =~= esc_char(s[0]));
}

/// Field texts can be told apart: one field followed by anything determines the field.
proof fn lemma_field_unique(a: Seq<char>, x: Seq<char>, b: Seq<char>, y: Seq<char>)
    requires
        enc_field(a) + x == enc_field(b) + y,
    ensures
        a == b,
        x == y,
    decreases a.len(),
{
    let l = enc_field(a) + x;
    if a.len() == 0 {
        assert(l[0] == ';');
        if b.len() > 0 {
            lemma_esc_cons(b);
            assert(enc_field(b) + y =~= esc_char(b[0]) + (enc_field(b.skip(1)) + y));
        } else {
            lemma_split(enc_field(a), x, enc_field(b), y);
            assert(a =~= b);
        }
    } else if b.len() == 0 {
        assert((enc_field(b) + y)[0] == ';');
        lemma_esc_cons(a);
        assert(enc_field(a) + x =~= esc_char(a[0]) + (enc_field(a.skip(1)) + x));
    } else {
        lemma_esc_cons(a);
        lemma_esc_cons(b);
        let ra = enc_field(a.skip(1)) + x;
        let rb = enc_field(b.skip(1)) + y;
        assert(enc_field(a) + x =~= esc_char(a[0]) + ra);
        assert(enc_field(b) + y =~= esc_char(b[0]) + rb);
        assert(esc_char(a[0]) == esc_char(b[0])) by {
            let r = esc_char(b[0]) + rb;
            assert(r == esc_char(a[0]) + ra);
            if is_special(a[0]) {
                assert(r[0] == '\\');
                assert(r[1] == a[0]);
            } else {
                assert(r[0] == a[0]);
            }
        }
        lemma_split(esc_char(a[0]), ra, esc_char(b[0]), rb);
        assert(a[0] == b[0]) by {
            assert(esc_char(a[0])[esc_char(a[0]).len() - 1] == a[0]);
            assert(esc_char(b[0])[esc_char(b[0]).len() - 1] == b[0]);
        }
        lemma_field_unique(a.skip(1), x, b.skip(1), y);
        assert(a =~= seq![a[0]] + a.skip(1));
        assert(b =~= seq![b[0]] + b.skip(1));
    }
}

proof fn lemma_opt_unique(a: Option<Seq<char>>, x: Seq<char>, b: Option<Seq<char>>, y: Seq<char>)
    requires
        enc_opt(a) + x == enc_opt(b) + y,
    ensures
        a == b,
        x == y,
{
    let l = enc_opt(a) + x;
    assert(l[0] == enc_opt(a)[0]);
    assert((enc_opt(b) + y)[0] == enc_opt(b)[0]);
    match a {
        None => {
            match b {
                None => {
                    lemma_split(enc_opt(a), x, enc_opt(b), y);
                },
                Some(_) => {},
            }
        },
        Some(sa) => {
            match b {
                None => {},
                Some(sb) => {
                    assert(enc_opt(a) + x =~= seq!['+'] + (enc_field(sa) + x));
                    assert(enc_opt(b) + y =~= seq!['+'] + (enc_field(sb) + y));
                    lemma_split(seq!['+'], enc_field(sa) + x, seq!['+'], enc_field(sb) + y);
                    lemma_field_unique(sa, x, sb, y);
                },
            }
        },
    }
}

proof fn lemma_assoc(p: Seq<char>, q: Seq<char>, r: Seq<char>)
    ensures
        (p + q) + r == p + (q + r),
{
    assert((p + q) + r =~= p + (q + r));
}

/// A record's text followed by `x`, field by field.
proof fn lemma_record_text(a: InstanceView, x: Seq<char>)
    ensures
        enc_record(a) + x == seq!['#'] + (enc_field(a.id) + (enc_opt(a.state) + (enc_opt(a.name) + (
        enc_opt(a.autoscaling_group_name) + (enc_opt(a.health) + x))))),
{
    let r1 = seq!['#'] + enc_field(a.id);
    let r2 = r1 + enc_opt(a.state);
    let r3 = r2 + enc_opt(a.name);
    let r4 = r3 + enc_opt(a.autoscaling_group_name);
    let ta = enc_opt(a.health) + x;
    let ga = enc_opt(a.autoscaling_group_name) + ta;
    let na = enc_opt(a.name) + ga;
    let sa = enc_opt(a.state) + na;
    lemma_assoc(r4, enc_opt(a.health), x);
    lemma_assoc(r3, enc_opt(a.autoscaling_group_name), ta);
    lemma_assoc(r2, enc_opt(a.name), ga);
    lemma_assoc(r1, enc_opt(a.state), na);
    lemma_assoc(seq!['#'], enc_field(a.id), sa);
}

proof fn lemma_record_unique(a: InstanceView, x: Seq<char>, b: InstanceView, y: Seq<char>)
    requires
        enc_record(a) + x == enc_record(b) + y,
    ensures
        a == b,
        x == y,
{
    let ta = enc_opt(a.health) + x;
    let tb = enc_opt(b.health) + y;
    let ga = enc_opt(a.autoscaling_group_name) + ta;
    let gb = enc_opt(b.autoscaling_group_name) + tb;
    let na = enc_opt(a.name) + ga;
    let nb = enc_opt(b.name) + gb;
    let sa = enc_opt(a.state) + na;
    let sb = enc_opt(b.state) + nb;
    let ia = enc_field(a.id) + sa;
    let ib = enc_field(b.id) + sb;
    lemma_record_text(a, x);
    lemma_record_text(b, y);
    lemma_split(seq!['#'], ia, seq!['#'], ib);
    lemma_field_unique(a.id, sa, b.id, sb);
    lemma_opt_unique(a.state, na, b.state, nb);
    lemma_opt_unique(a.name, ga, b.name, gb);
    lemma_opt_unique(a.autoscaling_group_name, ta, b.autoscaling_group_name, tb);
    lemma_opt_unique(a.health, x, b.health, y);
}

proof fn lemma_records_concat(a: Seq<InstanceView>, b: Seq<InstanceView>)
    ensures
        enc_records(a + b) == enc_records(a) + enc_records(b),
    decreases b.len(),
{
    if b.len() == 0 {
        assert(a + b =~= a);
        assert(enc_records(a) + enc_records(b) =~= enc_records(a));
    } else {
        assert((a + b).drop_last() =~= a + b.drop_last());
        assert((a + b).last() == b.last());
        lemma_records_concat(a, b.drop_last());
        assert(enc_records(a + b) =~= enc_records(a) + enc_records(b));
    }
}

proof fn lemma_records_cons(s: Seq<InstanceView>)
    requires
        s.len() > 0,
    ensures
        enc_records(s) == enc_record(s[0]) + enc_records(s.skip(1)),
{
    assert(s =~= seq![s[0]] + s.skip(1));
    lemma_records_concat(seq![s[0]], s.skip(1));
    let one = seq![s[0]];
    assert(one.last() == s[0]);
    assert(one.drop_last() =~= Seq::<InstanceView>::empty());
    assert(enc_records(one.drop_last()) == Seq::<char>::empty());
    assert(enc_records(one) =~= enc_record(s[0]));
}

/// Snapshot texts can be told apart: only one collection has a given snapshot.
pub proof fn lemma_snapshot_injective(a: CollectionView, b: CollectionView)
    requires
        snapshot_of(a) == snapshot_of(b),
    ensures
        a == b,
    decreases a.instances.len(),
{
    let pa = enc_opt(a.profile) + enc_records(a.instances);
    let pb = enc_opt(b.profile) + enc_records(b.instances);
    assert(snapshot_of(a) =~= enc_opt(a.region) + pa);
    assert(snapshot_of(b) =~= enc_opt(b.region) + pb);
    lemma_opt_unique(a.region, pa, b.region, pb);
    lemma_opt_unique(a.profile, enc_records(a.instances), b.profile, enc_records(b.instances));
    lemma_records_injective(a.instances, b.instances);
}

proof fn lemma_records_injective(a: Seq<InstanceView>, b: Seq<InstanceView>)
    requires
        enc_records(a) == enc_records(b),
    ensures
        a == b,
    decreases a.len(),
{
    if a.len() == 0 {
        if b.len() > 0 {
            lemma_records_cons(b);
            assert((enc_record(b[0]) + enc_records(b.skip(1))).len() > 0);
        }
        assert(a =~= b);
    } else if b.len() == 0 {
        lemma_records_cons(a);
        assert((enc_record(a[0]) + enc_records(a.skip(1))).len() > 0);
    } else {
        lemma_records_cons(a);
        lemma_records_cons(b);
        lemma_record_unique(a[0], enc_records(a.skip(1)), b[0], enc_records(b.skip(1)));
        lemma_records_injective(a.skip(1), b.skip(1));
        assert(a =~= seq![a[0]] + a.skip(1));
        assert(b =~= seq![b[0]] + b.skip(1));
    }
}

/// Appends `s` escaped.
fn write_escaped(out: &mut String, s: &str)
    ensures
        final(out)@ == old(out)@ + esc(s@),
{
    proof {
        reveal_strlit("\\");
    }
    let ghost start = out@;
    let n = s.unicode_len();
    let mut k: usize = 0;
    while k < n
        invariant
            k <= n,
            n == s@.len(),
            out@ == start + esc(s@.take(k as int)),
        decreases n - k,
    {
        let c = s.get_char(k);
        let ghost before = out@;
        if c == '\\' || c == ';' {
            out.append("\\");
            proof {
                reveal_strlit("\\");
                assert("\\"@.len() == 1);
                assert("\\"@[0] == '\\');
                assert("\\"@ =~= seq!['\\']);
            }
        }
        let ghost mid = out@;
        out.append(s.substring_char(k, k + 1));
        proof {
            let t = s@.take(k + 1);
            assert(t.drop_last() =~= s@.take(k as int));
            assert(t.last() == c);
            assert(s@.subrange(k as int, k + 1) =~= seq![c]);
            assert(esc(t) == esc(s@.take(k as int)) + esc_char(c));
            assert(mid + seq![c] =~= before + esc_char(c));
            assert(out@ =~= start + esc(t));
        }
        k = k + 1;
    }
    assert(s@.take(n as int) =~= s@);
}

fn write_field(out: &mut String, s: &str)
    ensures
        final(out)@ == old(out)@ + enc_field(s@),
{
    proof {
        reveal_strlit(";");
    }
    write_escaped(out, s);
    out.append(";");
    assert(final(out)@ =~= old(out)@ + enc_field(s@));
}

fn write_opt(out: &mut String, o: &Option<String>)
    ensures
        final(out)@ == old(out)@ + enc_opt(opt_view(*o)),
{
    proof {
        reveal_strlit("-");
        reveal_strlit("+");
    }
    match o {
        None => {
            out.append("-");
        },
        Some(v) => {
            out.append("+");
            write_field(out, v.as_str());
        },
    }
    assert(final(out)@ =~= old(out)@ + enc_opt(opt_view(*o)));
}

fn write_record(out: &mut String, r: &EC2Instance)
    ensures
        final(out)@ == old(out)@ + enc_record(r@),
{
    proof {
        reveal_strlit("#");
    }
    out.append("#");
    write_field(out, r.id.as_str());
    write_opt(out, &r.state);
    write_opt(out, &r.name);
    write_opt(out, &r.autoscaling_group_name);
    write_opt(out, &r.health);
    assert(final(out)@ =~= old(out)@ + enc_record(r@));
}

impl EC2InstanceCollection {
    /// The snapshot text of the whole collection, unset fields included.
    pub fn save(&self) -> (r: String)
        ensures
            r@ == snapshot_of(self@),
    {
        let mut out = String::new();
        write_opt(&mut out, &self.region);
        write_opt(&mut out, &self.profile);
        let ghost head = out@;
        let mut i: usize = 0;
        while i < self.instances.len()
            invariant
                i <= self.instances.len(),
                head == enc_opt(self@.region) + enc_opt(self@.profile),
                out@ == head + enc_records(self@.instances.take(i as int)),
            decreases self.instances.len() - i,
        {
            write_record(&mut out, &self.instances[i]);
            proof {
                let t = self@.instances.take(i + 1);
                assert(t.drop_last() =~= self@.instances.take(i as int));
                assert(t.last() == self.instances@[i as int]@);
                assert(out@ =~= head + enc_records(t));
            }
            i = i + 1;
        }
        assert(self@.instances.take(self.instances@.len() as int) =~= self@.instances);
        out
    }
}

/// Whether some field text, followed by anything, starts `t`.
pub open spec fn starts_with_field(t: Seq<char>) -> bool {
    exists|v: Seq<char>| #[trigger] enc_field(v).is_prefix_of(t)
}

/// Reads one field from position `pos` of `t`, of `n` characters; returns it and the
/// position after it.
fn parse_field(t: &str, n: usize, pos: usize) -> (r: Option<(String, usize)>)
    requires
        n == t@.len(),
        pos <= n,
    ensures
        r is Some ==> pos < r->Some_0.1 <= n && t@.subrange(pos as int, r->Some_0.1 as int)
            == enc_field(r->Some_0.0@),
        starts_with_field(t@.subrange(pos as int, n as int)) ==> r is Some,
{
    let ghost has = starts_with_field(t@.subrange(pos as int, n as int));
    let ghost v0: Seq<char> = if has {
        choose|v: Seq<char>| #[trigger] enc_field(v).is_prefix_of(t@.subrange(pos as int, n as int))
    } else {
        Seq::empty()
    };
    let ghost rest0: Seq<char> = t@.subrange(pos as int, n as int).skip(enc_field(v0).len() as int);
    proof {
        if has {
            assert(t@.subrange(pos as int, n as int) =~= enc_field(v0) + rest0);
            assert(v0.take(0) =~= Seq::<char>::empty());
            assert(v0.skip(0) =~= v0);
            assert(t@.subrange(pos as int, n as int) =~= esc(v0.skip(0)) + seq![';'] + rest0);
        }
        assert(t@.subrange(pos as int, pos as int) =~= esc(Seq::<char>::empty()));
    }
    let mut out = String::new();
    let mut j: usize = pos;
    while j < n
        invariant
            pos <= j <= n,
            n == t@.len(),
            t@.subrange(pos as int, j as int) == esc(out@),
            has == starts_with_field(t@.subrange(pos as int, n as int)),
            has ==> out@.len() <= v0.len() && t@.subrange(j as int, n as int) == esc(
                v0.skip(out@.len() as int),
            ) + seq![';'] + rest0,
        decreases n - j,
    {
        let ghost k = out@.len() as int;
        let ghost u = v0.skip(k);
        let c = t.get_char(j);
        proof {
            assert(t@.subrange(j as int, n as int)[0] == c);
            if has && u.len() > 0 {
                lemma_esc_cons(u);
                assert(u.skip(1) =~= v0.skip(k + 1));
                assert(u[0] == v0[k]);
                assert(t@.subrange(j as int, n as int) =~= esc_char(u[0]) + (esc(v0.skip(k + 1))
                    + seq![';'] + rest0));
            }
            if has && u.len() == 0 {
                assert(esc(u) =~= Seq::<char>::empty());
            }
        }
        if c == ';' {
            proof {
                if has && u.len() > 0 {
                    assert(esc_char(u[0])[0] != ';');
                }
                assert(t@.subrange(pos as int, j + 1) =~= t@.subrange(pos as int, j as int) + seq![';']);
            }
            return Some((out, j + 1));
        }
        let ghost before = out@;
        if c == '\\' {
            if j + 1 >= n {
                proof {
                    if has {
                        assert(u.len() > 0);
                        let x = t@.subrange(j as int, n as int);
                        assert(x[0] == esc_char(u[0])[0]);
                        assert(is_special(u[0]));
                        assert(x.len() >= 3);
                    }
                }
                return None;
            }
            let d = t.get_char(j + 1);
            if d != '\\' && d != ';' {
                proof {
                    if has {
                        assert(u.len() > 0);
                        let x = t@.subrange(j as int, n as int);
                        assert(x[0] == esc_char(u[0])[0]);
                        assert(is_special(u[0]));
                        assert(x[1] == esc_char(u[0])[1]);
                        assert(x[1] == d);
                    }
                }
                return None;
            }
            out.append(t.substring_char(j + 1, j + 2));
            proof {
                assert(t@.subrange(j + 1, j + 2) =~= seq![d]);
                assert(out@.drop_last() =~= before);
                assert(esc_char(d) =~= seq!['\\', d]);
                assert(t@.subrange(pos as int, j + 2) =~= t@.subrange(pos as int, j as int) + seq!['\\', d]);
                if has {
                    assert(u.len() > 0);
                    assert(t@.subrange(j as int, n as int)[1] == d);
                    assert(esc_char(u[0]).len() == 2);
                    assert(u[0] == d);
                    assert(t@.subrange(j + 2, n as int) =~= t@.subrange(j as int, n as int).skip(2));
                    assert(t@.subrange(j as int, n as int).skip(2) =~= esc(v0.skip(k + 1)) + seq![';'] + rest0);
                }
            }
            j = j + 2;
        } else {
            out.append(t.substring_char(j, j + 1));
            proof {
                assert(t@.subrange(j as int, j + 1) =~= seq![c]);
                assert(out@.drop_last() =~= before);
                assert(esc_char(c) =~= seq![c]);
                assert(t@.subrange(pos as int, j + 1) =~= t@.subrange(pos as int, j as int) + seq![c]);
                if has {
                    assert(u.len() > 0);
                    assert(esc_char(u[0]).len() == 1);
                    assert(u[0] == c);
                    assert(t@.subrange(j + 1, n as int) =~= t@.subrange(j as int, n as int).skip(1));
                    assert(t@.subrange(j as int, n as int).skip(1) =~= esc(v0.skip(k + 1)) + seq![';'] + rest0);
                }
            }
            j = j + 1;
        }
    }
    proof {
        if has {
            assert(t@.subrange(j as int, n as int).len() == 0);
            assert((esc(v0.skip(out@.len() as int)) + seq![';'] + rest0).len() > 0);
        }
    }
    None
}

proof fn lemma_sub_concat(s: Seq<char>, a: int, b: int, c: int)
    requires
        0 <= a <= b <= c <= s.len(),
    ensures
        s.subrange(a, c) == s.subrange(a, b) + s.subrange(b, c),
{
    assert(s.subrange(a, c) =~= s.subrange(a, b) + s.subrange(b, c));
}

proof fn lemma_prefix(p: Seq<char>, rest: Seq<char>, x: Seq<char>)
    requires
        x == p + rest,
    ensures
        p.is_prefix_of(x),
{
    assert(x.take(p.len() as int) =~= p);
}

/// Whether some optional field text, followed by anything, starts `t`.
pub open spec fn starts_with_opt(t: Seq<char>) -> bool {
    exists|o: Option<Seq<char>>| #[trigger] enc_opt(o).is_prefix_of(t)
}

/// Whether some record text, followed by anything, starts `t`.
pub open spec fn starts_with_record(t: Seq<char>) -> bool {
    exists|r: InstanceView| #[trigger] enc_record(r).is_prefix_of(t)
}

fn parse_opt(t: &str, n: usize, pos: usize) -> (r: Option<(Option<String>, usize)>)
    requires
        n == t@.len(),
        pos <= n,
    ensures
        r is Some ==> pos < r->Some_0.1 <= n && t@.subrange(pos as int, r->Some_0.1 as int)
            == enc_opt(opt_view(r->Some_0.0)),
        starts_with_opt(t@.subrange(pos as int, n as int)) ==> r is Some,
{
    let ghost x = t@.subrange(pos as int, n as int);
    let ghost has = starts_with_opt(x);
    let ghost o0 = if has {
        choose|o: Option<Seq<char>>| #[trigger] enc_opt(o).is_prefix_of(x)
    } else {
        None
    };
    proof {
        if has {
            assert(x[0] == enc_opt(o0)[0]);
        }
    }
    if pos >= n {
        return None;
    }
    let c = t.get_char(pos);
    assert(x[0] == c);
    if c == '-' {
        assert(t@.subrange(pos as int, pos + 1) =~= seq!['-']);
        return Some((None, pos + 1));
    }
    if c == '+' {
        proof {
            if has {
                let v = o0->Some_0;
                let y = t@.subrange(pos + 1, n as int);
                assert(y.take(enc_field(v).len() as int) =~= x.take(enc_opt(o0).len() as int).skip(1));
                assert(enc_field(v).is_prefix_of(y));
            }
        }
        match parse_field(t, n, pos + 1) {
            Some((v, q)) => {
                proof {
                    lemma_sub_concat(t@, pos as int, pos + 1, q as int);
                    assert(t@.subrange(pos as int, pos + 1) =~= seq!['+']);
                }
                return Some((Some(v), q));
            },
            None => {
                return None;
            },
        }
    }
    None
}

fn parse_record(t: &str, n: usize, pos: usize) -> (r: Option<(EC2Instance, usize)>)
    requires
        n == t@.len(),
        pos <= n,
    ensures
        r is Some ==> pos < r->Some_0.1 <= n && t@.subrange(pos as int, r->Some_0.1 as int)
            == enc_record(r->Some_0.0@),
        starts_with_record(t@.subrange(pos as int, n as int)) ==> r is Some,
{
    let ghost x = t@.subrange(pos as int, n as int);
    let ghost has = starts_with_record(x);
    let ghost r0 = if has {
        choose|r: InstanceView| #[trigger] enc_record(r).is_prefix_of(x)
    } else {
        InstanceView::fresh(Seq::empty())
    };
    let ghost rest0 = x.skip(enc_record(r0).len() as int);
    let ghost h_t = enc_opt(r0.health) + rest0;
    let ghost g_t = enc_opt(r0.autoscaling_group_name) + h_t;
    let ghost n_t = enc_opt(r0.name) + g_t;
    let ghost s_t = enc_opt(r0.state) + n_t;
    let ghost i_t = enc_field(r0.id) + s_t;
    proof {
        if has {
            assert(x =~= enc_record(r0) + rest0);
            lemma_record_text(r0, rest0);
            assert(x[0] == '#');
        }
    }
    if pos >= n {
        return None;
    }
    let c = t.get_char(pos);
    assert(x[0] == c);
    if c != '#' {
        return None;
    }
    proof {
        if has {
            assert(t@.subrange(pos + 1, n as int) =~= x.skip(1));
            assert(x.skip(1) =~= i_t);
            lemma_prefix(enc_field(r0.id), s_t, t@.subrange(pos + 1, n as int));
        }
    }
    let (id, q1) = match parse_field(t, n, pos + 1) {
        Some(p) => p,
        None => {
            return None;
        },
    };
    proof {
        lemma_sub_concat(t@, pos + 1, q1 as int, n as int);
        if has {
            lemma_field_unique(id@, t@.subrange(q1 as int, n as int), r0.id, s_t);
            lemma_prefix(enc_opt(r0.state), n_t, t@.subrange(q1 as int, n as int));
        }
    }
    let (state, q2) = match parse_opt(t, n, q1) {
        Some(p) => p,
        None => {
            return None;
        },
    };
    proof {
        lemma_sub_concat(t@, q1 as int, q2 as int, n as int);
        if has {
            lemma_opt_unique(opt_view(state), t@.subrange(q2 as int, n as int), r0.state, n_t);
            lemma_prefix(enc_opt(r0.name), g_t, t@.subrange(q2 as int, n as int));
        }
    }
    let (name, q3) = match parse_opt(t, n, q2) {
        Some(p) => p,
        None => {
            return None;
        },
    };
    proof {
        lemma_sub_concat(t@, q2 as int, q3 as int, n as int);
        if has {
            lemma_opt_unique(opt_view(name), t@.subrange(q3 as int, n as int), r0.name, g_t);
            lemma_prefix(enc_opt(r0.autoscaling_group_name), h_t, t@.subrange(q3 as int, n as int));
        }
    }
    let (group, q4) = match parse_opt(t, n, q3) {
        Some(p) => p,
        None => {
            return None;
        },
    };
    proof {
        lemma_sub_concat(t@, q3 as int, q4 as int, n as int);
        if has {
            lemma_opt_unique(
                opt_view(group),
                t@.subrange(q4 as int, n as int),
                r0.autoscaling_group_name,
                h_t,
            );
            lemma_prefix(enc_opt(r0.health), rest0, t@.subrange(q4 as int, n as int));
        }
    }
    let (health, q5) = match parse_opt(t, n, q4) {
        Some(p) => p,
        None => {
            return None;
        },
    };
    let rec = EC2Instance { id, state, name, autoscaling_group_name: group, health };
    proof {
        assert(t@.subrange(pos as int, pos + 1) =~= seq!['#']);
        lemma_sub_concat(t@, pos as int, pos + 1, q1 as int);
        lemma_sub_concat(t@, pos as int, q1 as int, q2 as int);
        lemma_sub_concat(t@, pos as int, q2 as int, q3 as int);
        lemma_sub_concat(t@, pos as int, q3 as int, q4 as int);
        lemma_sub_concat(t@, pos as int, q4 as int, q5 as int);
    }
    Some((rec, q5))
}

impl EC2InstanceCollection {
    /// Reads a snapshot text back. It succeeds exactly when the text is the snapshot of
    /// some collection, and then gives the collection whose snapshot it is.
    pub fn load(text: &str) -> (r: Result<EC2InstanceCollection, SnapshotError>)
        ensures
            r is Ok <==> exists|c: CollectionView| #[trigger] snapshot_of(c) == text@,
            r is Ok ==> snapshot_of(r->Ok_0@) == text@,
    {
        let n = text.unicode_len();
        let ghost t = text@;
        let ghost has = exists|c: CollectionView| #[trigger] snapshot_of(c) == text@;
        let ghost c0 = if has {
            choose|c: CollectionView| #[trigger] snapshot_of(c) == text@
        } else {
            CollectionView { region: None, profile: None, instances: Seq::empty() }
        };
        let ghost recs0 = enc_records(c0.instances);
        let ghost p_t = enc_opt(c0.profile) + recs0;
        proof {
            assert(t.subrange(0, n as int) =~= t);
            if has {
                assert(t =~= enc_opt(c0.region) + p_t);
                lemma_prefix(enc_opt(c0.region), p_t, t);
            }
        }
        let (region, q1) = match parse_opt(text, n, 0) {
            Some(p) => p,
            None => {
                return Err(SnapshotError::Malformed);
            },
        };
        proof {
            lemma_sub_concat(t, 0, q1 as int, n as int);
            if has {
                lemma_opt_unique(opt_view(region), t.subrange(q1 as int, n as int), c0.region, p_t);
                lemma_prefix(enc_opt(c0.profile), recs0, t.subrange(q1 as int, n as int));
            }
        }
        let (profile, q2) = match parse_opt(text, n, q1) {
            Some(p) => p,
            None => {
                return Err(SnapshotError::Malformed);
            },
        };
        proof {
            lemma_sub_concat(t, q1 as int, q2 as int, n as int);
            lemma_sub_concat(t, 0, q1 as int, q2 as int);
            if has {
                lemma_opt_unique(opt_view(profile), t.subrange(q2 as int, n as int), c0.profile, recs0);
                assert(c0.instances.skip(0) =~= c0.instances);
            }
        }
        let mut c = EC2InstanceCollection::with_context(region, profile);
        let mut p: usize = q2;
        proof {
            assert(t.subrange(0, p as int) =~= enc_opt(c@.region) + enc_opt(c@.profile) + enc_records(c@.instances));
        }
        while p < n
            invariant
                q2 <= p <= n,
                n == t.len(),
                t == text@,
                has == exists|c: CollectionView| #[trigger] snapshot_of(c) == text@,
                t.subrange(0, p as int) == enc_opt(c@.region) + enc_opt(c@.profile) + enc_records(
                    c@.instances,
                ),
                has ==> c@.instances.len() <= c0.instances.len() && t.subrange(p as int, n as int)
                    == enc_records(c0.instances.skip(c@.instances.len() as int)),
            decreases n - p,
        {
            let ghost k = c@.instances.len() as int;
            let ghost u = c0.instances.skip(k);
            proof {
                if has {
                    if u.len() == 0 {
                        assert(enc_records(u) == Seq::<char>::empty());
                        assert(t.subrange(p as int, n as int).len() > 0);
                    }
                    lemma_records_cons(u);
                    lemma_prefix(enc_record(u[0]), enc_records(u.skip(1)), t.subrange(p as int, n as int));
                }
            }
            let (rec, q) = match parse_record(text, n, p) {
                Some(x) => x,
                None => {
                    return Err(SnapshotError::Malformed);
                },
            };
            let ghost before = c@;
            proof {
                lemma_sub_concat(t, p as int, q as int, n as int);
                lemma_sub_concat(t, 0, p as int, q as int);
                if has {
                    lemma_record_unique(rec@, t.subrange(q as int, n as int), u[0], enc_records(u.skip(1)));
                    assert(u.skip(1) =~= c0.instances.skip(k + 1));
                }
            }
            c.add_instance(rec);
            proof {
                assert(c@.instances.drop_last() =~= before.instances);
                assert(t.subrange(0, q as int) =~= enc_opt(c@.region) + enc_opt(c@.profile) + enc_records(c@.instances));
            }
            p = q;
        }
        proof {
            assert(t.subrange(0, n as int) =~= t);
            assert(snapshot_of(c@) =~= t);
        }
        Ok(c)
    }
}

/// Loading what saving wrote gives back the same collection, every field and every
/// unset field included: the saved text is a snapshot, so loading it succeeds, and no
/// other collection has that snapshot.
pub proof fn lemma_round_trip(c: CollectionView)
    ensures
        exists|d: CollectionView| #[trigger] snapshot_of(d) == snapshot_of(c),
        forall|d: CollectionView| #[trigger] snapshot_of(d) == snapshot_of(c) ==> d == c,
{
    assert(snapshot_of(c) == snapshot_of(c));
    assert forall|d: CollectionView| #[trigger] snapshot_of(d) == snapshot_of(c) implies d == c by {
        lemma_snapshot_injective(d, c);
    }
}

} // verus!
