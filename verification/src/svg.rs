//! Dead-simple SVG writing. It is not efficient nor pretty, but it gets the
//! job done: elements hold their attributes sorted by name, and rendering is
//! plain string concatenation. Coordinates are the crate's fixed-point
//! values and are printed as exact decimals.

use vstd::prelude::*;

use crate::geom::{Pt, SCALE};

verus! {

/// Lexicographic order on character sequences by code point; the order std
/// gives strings.
pub open spec fn chars_lt(a: Seq<char>, b: Seq<char>) -> bool
    decreases a.len(),
{
    if b.len() == 0 {
        false
    } else if a.len() == 0 {
        true
    } else if a[0] != b[0] {
        (a[0] as int) < (b[0] as int)
    } else {
        chars_lt(a.drop_first(), b.drop_first())
    }
}

/// The order is connected: two unordered sequences are equal.
pub proof fn lemma_chars_lt_connected(a: Seq<char>, b: Seq<char>)
    requires
        !chars_lt(a, b),
        !chars_lt(b, a),
    ensures
        a == b,
    decreases a.len(),
{
    if b.len() == 0 {
        assert(a.len() == 0);
        assert(a =~= b);
    } else if a.len() == 0 {
    } else {
        let ca = a[0];
        let cb = b[0];
        if ca != cb {
            assert(chars_lt(a, b) == ((ca as int) < (cb as int)));
            assert(chars_lt(b, a) == ((cb as int) < (ca as int)));
            assert((ca as int) == (cb as int));
            assert(ca == cb);
            assert(false);
        }
        lemma_chars_lt_connected(a.drop_first(), b.drop_first());
        assert(a =~= seq![a[0]] + a.drop_first());
        assert(b =~= seq![b[0]] + b.drop_first());
    }
}

fn str_lt(a: &str, b: &str) -> (r: bool)
    ensures
        r == chars_lt(a@, b@),
{
    let an = a.unicode_len();
    let bn = b.unicode_len();
    let mut i: usize = 0;
    proof {
        assert(a@.skip(0) =~= a@);
        assert(b@.skip(0) =~= b@);
    }
    loop
        invariant
            i <= an,
            i <= bn,
            an == a@.len(),
            bn == b@.len(),
            chars_lt(a@, b@) == chars_lt(a@.skip(i as int), b@.skip(i as int)),
        decreases an - i,
    {
        if i >= bn {
            proof {
                assert(b@.skip(i as int).len() == 0);
            }
            return false;
        }
        if i >= an {
            proof {
                assert(a@.skip(i as int).len() == 0);
                assert(b@.skip(i as int).len() > 0);
            }
            return true;
        }
        let ca = a.get_char(i);
        let cb = b.get_char(i);
        proof {
            assert(a@.skip(i as int)[0] == ca);
            assert(b@.skip(i as int)[0] == cb);
        }
        if ca != cb {
            return (ca as u32) < (cb as u32);
        }
        proof {
            assert(a@.skip(i as int).drop_first() =~= a@.skip(i + 1));
            assert(b@.skip(i as int).drop_first() =~= b@.skip(i + 1));
        }
        i = i + 1;
    }
}

/// The order is irreflexive.
pub proof fn lemma_chars_lt_irrefl(a: Seq<char>)
    ensures
        !chars_lt(a, a),
    decreases a.len(),
{
    if a.len() > 0 {
        lemma_chars_lt_irrefl(a.drop_first());
    }
}

/// The order is transitive.
pub proof fn lemma_chars_lt_trans(a: Seq<char>, b: Seq<char>, c: Seq<char>)
    requires
        chars_lt(a, b),
        chars_lt(b, c),
    ensures
        chars_lt(a, c),
    decreases a.len(),
{
    if b.len() > 0 && c.len() > 0 && a.len() > 0 {
        let a0 = a[0];
        let b0 = b[0];
        let c0 = c[0];
        if a0 == b0 && b0 == c0 {
            lemma_chars_lt_trans(a.drop_first(), b.drop_first(), c.drop_first());
        } else {
            assert((a0 as int) <= (b0 as int));
            assert((b0 as int) <= (c0 as int));
            assert((a0 as int) < (c0 as int));
            assert(a0 != c0);
        }
    }
}

/// The decimal digit character for `d`.
pub open spec fn digit_char(d: int) -> char {
    if d == 0 {
        '0'
    } else if d == 1 {
        '1'
    } else if d == 2 {
        '2'
    } else if d == 3 {
        '3'
    } else if d == 4 {
        '4'
    } else if d == 5 {
        '5'
    } else if d == 6 {
        '6'
    } else if d == 7 {
        '7'
    } else if d == 8 {
        '8'
    } else {
        '9'
    }
}

/// The decimal digits of `n`.
pub open spec fn dec_str(n: nat) -> Seq<char>
    decreases n,
{
    if n < 10 {
        seq![digit_char(n as int)]
    } else {
        dec_str(n / 10).push(digit_char((n % 10) as int))
    }
}

/// The decimal expansion of the fixed-point remainder `r / SCALE`, without
/// trailing zeros. `SCALE` divides a power of ten, so the expansion is
/// finite; the fuel only drives the recursion.
pub open spec fn frac_str(r: nat, fuel: nat) -> Seq<char>
    decreases fuel,
{
    if r == 0 || fuel == 0 {
        Seq::empty()
    } else {
        seq![digit_char((r * 10 / (SCALE as nat)) as int)] + frac_str(
            (r * 10) % (SCALE as nat),
            (fuel - 1) as nat,
        )
    }
}

/// The exact decimal rendering of the fixed-point value `v`: its whole
/// part, and its fractional part after a point when there is one.
pub open spec fn fixed_str(v: u64) -> Seq<char> {
    if v % SCALE == 0 {
        dec_str((v / SCALE) as nat)
    } else {
        dec_str((v / SCALE) as nat) + seq!['.'] + frac_str((v % SCALE) as nat, 8)
    }
}

fn digit_to_str(d: u64) -> (r: &'static str)
    requires
        d < 10,
    ensures
        r@ == seq![digit_char(d as int)],
{
    proof {
        reveal_strlit("0");
        reveal_strlit("1");
        reveal_strlit("2");
        reveal_strlit("3");
        reveal_strlit("4");
        reveal_strlit("5");
        reveal_strlit("6");
        reveal_strlit("7");
        reveal_strlit("8");
        reveal_strlit("9");
    }
    let r = if d == 0 {
        "0"
    } else if d == 1 {
        "1"
    } else if d == 2 {
        "2"
    } else if d == 3 {
        "3"
    } else if d == 4 {
        "4"
    } else if d == 5 {
        "5"
    } else if d == 6 {
        "6"
    } else if d == 7 {
        "7"
    } else if d == 8 {
        "8"
    } else {
        "9"
    };
    proof {
        assert(r@ =~= seq![digit_char(d as int)]);
    }
    r
}

/// Append the decimal digits of `n`.
fn push_dec(out: &mut String, n: u64)
    ensures
        final(out)@ == old(out)@ + dec_str(n as nat),
    decreases n,
{
    if n < 10 {
        out.append(digit_to_str(n));
    } else {
        push_dec(out, n / 10);
        out.append(digit_to_str(n % 10));
        proof {
            assert(old(out)@ + dec_str((n / 10) as nat) + seq![digit_char((n % 10) as int)]
                =~= old(out)@ + dec_str(n as nat));
        }
    }
}

/// First-match association lookup among attribute entries.
pub open spec fn attr_of(s: Seq<(&'static str, String)>, k: Seq<char>) -> Option<Seq<char>>
    decreases s.len(),
{
    if s.len() == 0 {
        None
    } else if s[0].0@ == k {
        Some(s[0].1@)
    } else {
        attr_of(s.drop_first(), k)
    }
}

proof fn lemma_attr_of_concat(s1: Seq<(&'static str, String)>, s2: Seq<(&'static str, String)>, k: Seq<char>)
    ensures
        attr_of(s1 + s2, k) == match attr_of(s1, k) {
            Some(v) => Some(v),
            None => attr_of(s2, k),
        },
    decreases s1.len(),
{
    if s1.len() == 0 {
        assert(s1 + s2 =~= s2);
    } else {
        assert((s1 + s2)[0] == s1[0]);
        assert((s1 + s2).drop_first() =~= s1.drop_first() + s2);
        lemma_attr_of_concat(s1.drop_first(), s2, k);
    }
}

/// An XML element: a tag and its attributes, kept sorted by name.
#[derive(Debug, Clone)]
pub struct Element {
    tag: &'static str,
    attributes: Vec<(&'static str, String)>,
}

/// An SVG document: a viewbox, in fixed-point coordinates, and child
/// elements.
#[derive(Debug, Clone)]
pub struct Document {
    children: Vec<Element>,
    vb_x: u64,
    vb_y: u64,
    vb_w: u64,
    vb_h: u64,
}

/// One rendered attribute: `name="value" ` (with the trailing space).
pub open spec fn quoted_attr(k: Seq<char>, v: Seq<char>) -> Seq<char> {
    k + "=\""@ + v + "\" "@
}

pub open spec fn render_attrs(s: Seq<(Seq<char>, Seq<char>)>) -> Seq<char>
    decreases s.len(),
{
    if s.len() == 0 {
        Seq::empty()
    } else {
        render_attrs(s.drop_last()) + quoted_attr(s.last().0, s.last().1)
    }
}

/// The rendering of one element: its tag and its attributes in stored
/// (name-sorted) order, as a self-closing tag.
pub open spec fn render_element(tag: Seq<char>, attrs: Seq<(Seq<char>, Seq<char>)>) -> Seq<char> {
    "<"@ + tag + " "@ + render_attrs(attrs) + "/>"@
}

impl Element {
    /// Attribute names are strictly sorted, hence unique.
    pub closed spec fn wf(self) -> bool {
        forall|i: int, j: int|
            0 <= i < j < self.attributes@.len() ==> chars_lt(
                (#[trigger] self.attributes@[i]).0@,
                (#[trigger] self.attributes@[j]).0@,
            )
    }

    pub closed spec fn spec_tag(self) -> Seq<char> {
        self.tag@
    }

    /// The value stored under attribute name `k`.
    pub closed spec fn spec_attr(self, k: Seq<char>) -> Option<Seq<char>> {
        attr_of(self.attributes@, k)
    }

    /// The attributes in stored order, as character sequences.
    pub closed spec fn spec_attrs(self) -> Seq<(Seq<char>, Seq<char>)> {
        self.attributes@.map_values(|kv: (&'static str, String)| (kv.0@, kv.1@))
    }

    pub fn new(tag: &'static str) -> (r: Element)
        ensures
            r.wf(),
            r.spec_tag() == tag@,
            forall|k: Seq<char>| r.spec_attr(k) == None::<Seq<char>>,
            r.spec_attrs() == Seq::<(Seq<char>, Seq<char>)>::empty(),
    {
        let r = Element { tag, attributes: Vec::new() };
        proof {
            assert(r.spec_attrs() =~= Seq::<(Seq<char>, Seq<char>)>::empty());
        }
        r
    }

    /// Set attribute `attr` to `value`, replacing any earlier value.
    pub fn set(self, attr: &'static str, value: &str) -> (r: Element)
        requires
            self.wf(),
        ensures
            r.wf(),
            r.spec_tag() == self.spec_tag(),
            forall|k: Seq<char>|
                #[trigger] r.spec_attr(k) == if k == attr@ {
                    Some(value@)
                } else {
                    self.spec_attr(k)
                },
    {
        let tag = self.tag;
        let mut attributes = self.attributes;
        let ghost s0 = attributes@;
        let n = attributes.len();
        let mut i: usize = 0;
        while i < n && str_lt(attributes[i].0, attr)
            invariant
                i <= n,
                n == attributes@.len(),
                attributes@ == s0,
                forall|m: int| 0 <= m < i ==> chars_lt((#[trigger] s0[m]).0@, attr@),
            decreases n - i,
        {
            i = i + 1;
        }
        let entry = (attr, String::from_str(value));
        let replacing = i < n && !str_lt(attr, attributes[i].0);
        if replacing {
            proof {
                lemma_chars_lt_connected(attr@, s0[i as int].0@);
            }
            attributes.remove(i);
            attributes.insert(i, entry);
        } else {
            attributes.insert(i, entry);
        }
        let r = Element { tag, attributes };
        proof {
            let s1 = r.attributes@;
            let ii = i as int;
            lemma_chars_lt_irrefl(attr@);
            if replacing {
                assert(s1 =~= s0.take(ii) + seq![entry] + s0.skip(ii + 1)) by {
                    assert(s0.remove(ii) =~= s0.take(ii) + s0.skip(ii + 1));
                    assert(s0.remove(ii).insert(ii, entry) =~= s0.take(ii) + seq![entry]
                        + s0.skip(ii + 1));
                }
                assert forall|a: int, b: int| 0 <= a < b < s1.len() implies chars_lt(
                    (#[trigger] s1[a]).0@,
                    (#[trigger] s1[b]).0@,
                ) by {
                    if a == ii {
                        assert(s1[b] == s0[b]);
                        assert(chars_lt(s0[ii].0@, s0[b].0@));
                        assert(s1[a].0@ == s0[ii].0@);
                    } else if b == ii {
                        assert(s1[a] == s0[a]);
                        assert(chars_lt(s0[a].0@, s0[ii].0@));
                    } else {
                        assert(s1[a] == s0[a] && s1[b] == s0[b]);
                    }
                }
                assert forall|k: Seq<char>|
                    #[trigger] attr_of(s1, k) == (if k == attr@ {
                        Some(value@)
                    } else {
                        attr_of(s0, k)
                    }) by {
                    lemma_attr_of_concat(s0.take(ii), seq![entry] + s0.skip(ii + 1), k);
                    lemma_attr_of_concat(seq![entry], s0.skip(ii + 1), k);
                    assert(s1 =~= s0.take(ii) + (seq![entry] + s0.skip(ii + 1)));
                    assert(s0 =~= s0.take(ii) + (seq![s0[ii]] + s0.skip(ii + 1)));
                    lemma_attr_of_concat(s0.take(ii), seq![s0[ii]] + s0.skip(ii + 1), k);
                    lemma_attr_of_concat(seq![s0[ii]], s0.skip(ii + 1), k);
                    assert(seq![entry].drop_first() =~= Seq::<(&'static str, String)>::empty());
                    assert(seq![s0[ii]].drop_first() =~= Seq::<(&'static str, String)>::empty());
                    if k == attr@ {
                        assert(attr_of(s0.take(ii), k) is None) by {
                            lemma_attr_of_some_key(s0.take(ii), k);
                            if attr_of(s0.take(ii), k) is Some {
                                let m = choose|m: int|
                                    0 <= m < s0.take(ii).len() && s0.take(ii)[m].0@ == k;
                                assert(chars_lt(s0[m].0@, attr@));
                            }
                        }
                    } else {
                        assert(attr_of(Seq::<(&'static str, String)>::empty(), k) is None);
                        assert(attr_of(seq![entry], k) is None);
                        assert(s0[ii].0@ == attr@);
                        assert(attr_of(seq![s0[ii]], k) is None);
                    }
                }
            } else {
                assert(s1 =~= s0.take(ii) + seq![entry] + s0.skip(ii));
                if i < n {
                    assert(chars_lt(attr@, s0[ii].0@));
                }
                assert forall|a: int, b: int| 0 <= a < b < s1.len() implies chars_lt(
                    (#[trigger] s1[a]).0@,
                    (#[trigger] s1[b]).0@,
                ) by {
                    if a == ii {
                        assert(s1[b] == s0[b - 1]);
                        if b - 1 > ii {
                            lemma_chars_lt_trans(attr@, s0[ii].0@, s0[b - 1].0@);
                        }
                    } else if b == ii {
                        assert(s1[a] == s0[a]);
                    } else if a < ii && b > ii {
                        assert(s1[a] == s0[a] && s1[b] == s0[b - 1]);
                        if a < ii && ii <= b - 1 {
                            if ii == b - 1 {
                            } else {
                                assert(chars_lt(s0[a].0@, s0[b - 1].0@));
                            }
                        }
                    } else if b < ii {
                        assert(s1[a] == s0[a] && s1[b] == s0[b]);
                    } else {
                        assert(s1[a] == s0[a - 1] && s1[b] == s0[b - 1]);
                    }
                }
                assert forall|k: Seq<char>|
                    #[trigger] attr_of(s1, k) == (if k == attr@ {
                        Some(value@)
                    } else {
                        attr_of(s0, k)
                    }) by {
                    lemma_attr_of_concat(s0.take(ii), seq![entry] + s0.skip(ii), k);
                    lemma_attr_of_concat(seq![entry], s0.skip(ii), k);
                    assert(s1 =~= s0.take(ii) + (seq![entry] + s0.skip(ii)));
                    assert(s0 =~= s0.take(ii) + s0.skip(ii));
                    lemma_attr_of_concat(s0.take(ii), s0.skip(ii), k);
                    assert(seq![entry].drop_first() =~= Seq::<(&'static str, String)>::empty());
                    if k == attr@ {
                        assert(attr_of(s0.take(ii), k) is None) by {
                            lemma_attr_of_some_key(s0.take(ii), k);
                            if attr_of(s0.take(ii), k) is Some {
                                let m = choose|m: int|
                                    0 <= m < s0.take(ii).len() && s0.take(ii)[m].0@ == k;
                                assert(chars_lt(s0[m].0@, attr@));
                            }
                        }
                    } else {
                        assert(attr_of(Seq::<(&'static str, String)>::empty(), k) is None);
                        assert(attr_of(seq![entry], k) is None);
                    }
                }
            }
        }
        r
    }

    /// Set the `fill` attribute.
    pub fn fill(self, color: &str) -> (r: Element)
        requires
            self.wf(),
        ensures
            r.wf(),
            r.spec_tag() == self.spec_tag(),
            forall|k: Seq<char>|
                #[trigger] r.spec_attr(k) == if k == "fill"@ {
                    Some(color@)
                } else {
                    self.spec_attr(k)
                },
    {
        self.set("fill", color)
    }

    /// Render the element as a self-closing XML tag.
    pub fn to_xml(&self) -> (r: String)
        ensures
            r@ == render_element(self.spec_tag(), self.spec_attrs()),
    {
        let mut out = String::new();
        out.append("<");
        out.append(self.tag);
        out.append(" ");
        let n = self.attributes.len();
        let mut i: usize = 0;
        proof {
            assert(self.spec_attrs().take(0) =~= Seq::<(Seq<char>, Seq<char>)>::empty());
        }
        while i < n
            invariant
                i <= n,
                n == self.attributes@.len(),
                out@ == "<"@ + self.spec_tag() + " "@ + render_attrs(self.spec_attrs().take(
                    i as int,
                )),
            decreases n - i,
        {
            let kv = &self.attributes[i];
            out.append(kv.0);
            out.append("=\"");
            out.append(kv.1.as_str());
            out.append("\" ");
            proof {
                let attrs = self.spec_attrs();
                assert(attrs.take(i + 1).drop_last() =~= attrs.take(i as int));
                assert(attrs.take(i + 1).last() == attrs[i as int]);
                assert(out@ =~= "<"@ + self.spec_tag() + " "@ + render_attrs(attrs.take(i + 1)));
            }
            i = i + 1;
        }
        out.append("/>");
        proof {
            assert(self.spec_attrs().take(n as int) =~= self.spec_attrs());
        }
        out
    }
}

/// A point as `x,y`.
pub open spec fn pt_str(p: Pt) -> Seq<char> {
    fixed_str(p.x) + ","@ + fixed_str(p.y)
}

/// The `L x,y ` commands for the points of `p`, in order.
pub open spec fn path_lines(p: Seq<Pt>) -> Seq<char>
    decreases p.len(),
{
    if p.len() == 0 {
        Seq::empty()
    } else {
        path_lines(p.drop_last()) + "L "@ + pt_str(p.last()) + " "@
    }
}

/// One closed subpath: move to the first point, lines to the rest.
pub open spec fn path_group(p: Seq<Pt>) -> Seq<char>
    recommends
        p.len() > 0,
{
    "M "@ + pt_str(p[0]) + " "@ + path_lines(p.skip(1)) + "Z"@
}

/// The `d` attribute of a path through the nonempty point lists of `ps`,
/// with one space between consecutive subpaths. `started` says whether a
/// subpath was already written.
pub open spec fn path_d(ps: Seq<Seq<Pt>>, started: bool) -> Seq<char>
    decreases ps.len(),
{
    if ps.len() == 0 {
        Seq::empty()
    } else if ps[0].len() == 0 {
        path_d(ps.drop_first(), started)
    } else if started {
        " "@ + path_group(ps[0]) + path_d(ps.drop_first(), true)
    } else {
        path_group(ps[0]) + path_d(ps.drop_first(), true)
    }
}

/// The `points` attribute of a polyline: the points separated by spaces.
pub open spec fn points_str(p: Seq<Pt>) -> Seq<char>
    decreases p.len(),
{
    if p.len() == 0 {
        Seq::empty()
    } else if p.len() == 1 {
        pt_str(p[0])
    } else {
        points_str(p.drop_last()) + " "@ + pt_str(p.last())
    }
}

/// The exact decimal rendering of `v`, as an owned string.
fn fixed_string(v: u64) -> (r: String)
    ensures
        r@ == fixed_str(v),
{
    let mut s = String::new();
    push_fixed(&mut s, v);
    proof {
        assert(s@ =~= fixed_str(v));
    }
    s
}

impl Element {
    /// A `path` element drawing each nonempty point list of `paths` as one
    /// closed subpath.
    #[verifier::rlimit(50)]
    pub fn path(paths: &Vec<Vec<Pt>>) -> (r: Element)
        ensures
            r.wf(),
            r.spec_tag() == "path"@,
            forall|k: Seq<char>|
                #[trigger] r.spec_attr(k) == if k == "d"@ {
                    Some(path_d(crate::contour_views(paths@), false))
                } else {
                    None::<Seq<char>>
                },
    {
        let ghost views = crate::contour_views(paths@);
        let ghost target = path_d(views, false);
        let mut d = String::new();
        let mut started = false;
        let mut i: usize = 0;
        proof {
            assert(views.skip(0) =~= views);
        }
        while i < paths.len()
            invariant
                i <= paths@.len(),
                views == crate::contour_views(paths@),
                target == path_d(views, false),
                target == d@ + path_d(views.skip(i as int), started),
            decreases paths@.len() - i,
        {
            let p = &paths[i];
            let ghost rest = views.skip(i as int);
            proof {
                assert(rest[0] == p@);
                assert(rest.drop_first() =~= views.skip(i + 1));
            }
            if p.len() > 0 {
                if started {
                    d.append(" ");
                }
                d.append("M ");
                push_fixed(&mut d, p[0].x);
                d.append(",");
                push_fixed(&mut d, p[0].y);
                d.append(" ");
                let ghost dm = d@;
                let mut j: usize = 1;
                proof {
                    assert(p@.subrange(1, 1) =~= Seq::<Pt>::empty());
                }
                while j < p.len()
                    invariant
                        1 <= j <= p@.len(),
                        d@ == dm + path_lines(p@.subrange(1, j as int)),
                    decreases p@.len() - j,
                {
                    d.append("L ");
                    push_fixed(&mut d, p[j].x);
                    d.append(",");
                    push_fixed(&mut d, p[j].y);
                    d.append(" ");
                    proof {
                        assert(p@.subrange(1, j + 1).drop_last() =~= p@.subrange(1, j as int));
                        assert(p@.subrange(1, j + 1).last() == p@[j as int]);
                        assert(d@ =~= dm + path_lines(p@.subrange(1, j + 1)));
                    }
                    j = j + 1;
                }
                d.append("Z");
                proof {
                    assert(p@.subrange(1, p@.len() as int) =~= p@.skip(1));
                    assert(target =~= d@ + path_d(views.skip(i + 1), true));
                }
                started = true;
            }
            i = i + 1;
        }
        proof {
            assert(views.skip(paths@.len() as int).len() == 0);
            assert(d@ =~= target);
        }
        let el = Element::new("path");
        el.set("d", d.as_str())
    }

    /// A `polyline` element through the given points.
    pub fn polyline(v: &Vec<Pt>) -> (r: Element)
        ensures
            r.wf(),
            r.spec_tag() == "polyline"@,
            forall|k: Seq<char>|
                #[trigger] r.spec_attr(k) == if k == "points"@ {
                    Some(points_str(v@))
                } else {
                    None::<Seq<char>>
                },
    {
        let mut d = String::new();
        let mut i: usize = 0;
        proof {
            assert(v@.take(0) =~= Seq::<Pt>::empty());
        }
        while i < v.len()
            invariant
                i <= v@.len(),
                d@ == points_str(v@.take(i as int)),
            decreases v@.len() - i,
        {
            if i > 0 {
                d.append(" ");
            }
            push_fixed(&mut d, v[i].x);
            d.append(",");
            push_fixed(&mut d, v[i].y);
            proof {
                assert(v@.take(i + 1).drop_last() =~= v@.take(i as int));
                assert(v@.take(i + 1).last() == v@[i as int]);
                assert(d@ =~= points_str(v@.take(i + 1)));
            }
            i = i + 1;
        }
        proof {
            assert(v@.take(v@.len() as int) =~= v@);
        }
        let el = Element::new("polyline");
        el.set("points", d.as_str())
    }

    /// A `rect` element at `origin` with the given `size`, both in
    /// fixed-point coordinates.
    pub fn rect(origin: (u64, u64), size: (u64, u64)) -> (r: Element)
        ensures
            r.wf(),
            r.spec_tag() == "rect"@,
            r.spec_attr("x"@) == Some(fixed_str(origin.0)),
            r.spec_attr("y"@) == Some(fixed_str(origin.1)),
            r.spec_attr("width"@) == Some(fixed_str(size.0)),
            r.spec_attr("height"@) == Some(fixed_str(size.1)),
            forall|k: Seq<char>|
                k != "x"@ && k != "y"@ && k != "width"@ && k != "height"@
                    ==> #[trigger] r.spec_attr(k) == None::<Seq<char>>,
    {
        proof {
            reveal_strlit("x");
            reveal_strlit("y");
            reveal_strlit("width");
            reveal_strlit("height");
            assert("x"@.len() == 1 && "y"@.len() == 1 && "width"@.len() == 5 && "height"@.len()
                == 6);
            assert("x"@[0] == 'x' && "y"@[0] == 'y');
            assert("x"@ != "y"@ && "x"@ != "width"@ && "x"@ != "height"@ && "y"@ != "width"@
                && "y"@ != "height"@ && "width"@ != "height"@);
        }
        let el = Element::new("rect");
        let sx = fixed_string(origin.0);
        let sy = fixed_string(origin.1);
        let sw = fixed_string(size.0);
        let sh = fixed_string(size.1);
        el.set("x", sx.as_str()).set("y", sy.as_str()).set("width", sw.as_str()).set(
            "height",
            sh.as_str(),
        )
    }
}

/// The rendered children, one per line.
pub open spec fn render_children(cs: Seq<Element>) -> Seq<char>
    decreases cs.len(),
{
    if cs.len() == 0 {
        Seq::empty()
    } else {
        render_children(cs.drop_last()) + render_element(
            cs.last().spec_tag(),
            cs.last().spec_attrs(),
        ) + "\n"@
    }
}

/// The rendered document: the XML and doctype preamble, the `svg` tag with
/// its viewbox, the children one per line, and the closing tag.
pub open spec fn render_document(vb: (u64, u64, u64, u64), cs: Seq<Element>) -> Seq<char> {
    "<?xml version=\"1.0\" encoding=\"UTF-8\"?>\n<!DOCTYPE svg PUBLIC \"-//W3C//DTD SVG 1.1//EN\" \"http://www.w3.org/Graphics/SVG/1.1/DTD/svg11.dtd\">\n<svg xmlns=\"http://www.w3.org/2000/svg\" version=\"1.1\" viewBox=\""@
        + fixed_str(vb.0) + " "@ + fixed_str(vb.1) + " "@ + fixed_str(vb.2) + " "@ + fixed_str(
        vb.3,
    ) + "\">\n"@ + render_children(cs) + "</svg>"@
}

impl Document {
    pub closed spec fn spec_children(self) -> Seq<Element> {
        self.children@
    }

    pub closed spec fn spec_viewbox(self) -> (u64, u64, u64, u64) {
        (self.vb_x, self.vb_y, self.vb_w, self.vb_h)
    }

    pub fn new(viewbox: (u64, u64, u64, u64)) -> (r: Document)
        ensures
            r.spec_viewbox() == viewbox,
            r.spec_children() == Seq::<Element>::empty(),
    {
        let r = Document {
            children: Vec::new(),
            vb_x: viewbox.0,
            vb_y: viewbox.1,
            vb_w: viewbox.2,
            vb_h: viewbox.3,
        };
        proof {
            assert(r.spec_children() =~= Seq::<Element>::empty());
        }
        r
    }

    pub fn push(self, element: Element) -> (r: Document)
        ensures
            r.spec_viewbox() == self.spec_viewbox(),
            r.spec_children() == self.spec_children().push(element),
    {
        let mut children = self.children;
        children.push(element);
        Document { children, vb_x: self.vb_x, vb_y: self.vb_y, vb_w: self.vb_w, vb_h: self.vb_h }
    }

    /// Render the whole document.
    pub fn to_xml(&self) -> (r: String)
        ensures
            r@ == render_document(self.spec_viewbox(), self.spec_children()),
    {
        let mut out = String::new();
        out.append(
            "<?xml version=\"1.0\" encoding=\"UTF-8\"?>\n<!DOCTYPE svg PUBLIC \"-//W3C//DTD SVG 1.1//EN\" \"http://www.w3.org/Graphics/SVG/1.1/DTD/svg11.dtd\">\n<svg xmlns=\"http://www.w3.org/2000/svg\" version=\"1.1\" viewBox=\"",
        );
        push_fixed(&mut out, self.vb_x);
        out.append(" ");
        push_fixed(&mut out, self.vb_y);
        out.append(" ");
        push_fixed(&mut out, self.vb_w);
        out.append(" ");
        push_fixed(&mut out, self.vb_h);
        out.append("\">\n");
        let ghost head = out@;
        let n = self.children.len();
        let mut i: usize = 0;
        proof {
            assert(self.children@.take(0) =~= Seq::<Element>::empty());
        }
        while i < n
            invariant
                i <= n,
                n == self.children@.len(),
                out@ == head + render_children(self.children@.take(i as int)),
            decreases n - i,
        {
            let c = &self.children[i];
            let cx = c.to_xml();
            out.append(cx.as_str());
            out.append("\n");
            proof {
                assert(self.children@.take(i + 1).drop_last() =~= self.children@.take(i as int));
                assert(self.children@.take(i + 1).last() == self.children@[i as int]);
                assert(out@ =~= head + render_children(self.children@.take(i + 1)));
            }
            i = i + 1;
        }
        out.append("</svg>");
        proof {
            assert(self.children@.take(n as int) =~= self.children@);
            assert(out@ =~= render_document(self.spec_viewbox(), self.spec_children()));
        }
        out
    }
}

proof fn lemma_attr_of_some_key(s: Seq<(&'static str, String)>, k: Seq<char>)
    ensures
        attr_of(s, k) is Some ==> exists|m: int| 0 <= m < s.len() && (#[trigger] s[m]).0@ == k,
    decreases s.len(),
{
    if s.len() > 0 && s[0].0@ != k {
        lemma_attr_of_some_key(s.drop_first(), k);
        if attr_of(s, k) is Some {
            let m = choose|m: int|
                0 <= m < s.drop_first().len() && (#[trigger] s.drop_first()[m]).0@ == k;
            assert(s[m + 1].0@ == k);
        }
    }
}

/// Append the exact decimal rendering of the fixed-point value `v`.
fn push_fixed(out: &mut String, v: u64)
    ensures
        final(out)@ == old(out)@ + fixed_str(v),
{
    push_dec(out, v / SCALE);
    let mut r = v % SCALE;
    if r != 0 {
        proof {
            reveal_strlit(".");
            assert(".".view() =~= seq!['.']);
        }
        out.append(".");
        let ghost target = old(out)@ + fixed_str(v);
        let mut fuel: u64 = 8;
        proof {
            assert(target =~= out@ + frac_str(r as nat, fuel as nat));
        }
        while r != 0 && fuel > 0
            invariant
                r < SCALE,
                target == out@ + frac_str(r as nat, fuel as nat),
            decreases fuel,
        {
            let d = r * 10 / SCALE;
            let ghost r0 = r as nat;
            let ghost fuel0 = fuel as nat;
            r = r * 10 % SCALE;
            fuel = fuel - 1;
            out.append(digit_to_str(d));
            proof {
                assert(frac_str(r0, fuel0) =~= seq![digit_char(d as int)] + frac_str(
                    r as nat,
                    fuel as nat,
                ));
            }
        }
        proof {
            assert(frac_str(r as nat, fuel as nat) =~= Seq::<char>::empty());
            assert(out@ =~= target);
        }
    }
}

} // verus!
