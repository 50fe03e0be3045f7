//! The shape of the screens the greeter is drawn on.
//!
//! The greeter is hosted by a kiosk compositor that gives it one surface over
//! the whole output layout, so the multi-monitor login screen is drawn inside
//! that surface: the page paints a panel per monitor and puts the login box on
//! one of them. For that to line up with the physical screens, the page gets
//! the layout in the units it draws in, with the origin at the surface's
//! top-left corner.

use vstd::prelude::*;

verus! {

/// A monitor in logical pixels: position and size.
pub type Rect = (i32, i32, i32, i32);

/// A screen, as the page draws it.
pub struct Screen {
    /// Position in the layout, stable across reloads (monitor names are not).
    pub index: usize,
    pub name: String,
    /// Logical pixels, relative to the top-left corner of the surface.
    pub x: i32,
    pub y: i32,
    pub width: i32,
    pub height: i32,
    /// The screen to fall back to when the pointer is on none of them.
    pub primary: bool,
}

/// All the screens, and their bounding box in the same logical pixels.
pub struct ScreenLayout {
    pub width: i32,
    pub height: i32,
    pub screens: Vec<Screen>,
}

impl Default for ScreenLayout {
    fn default() -> (r: Self)
        ensures
            r.width == 0,
            r.height == 0,
            r.screens@.len() == 0,
    {
        ScreenLayout { width: 0, height: 0, screens: Vec::new() }
    }
}

/// How far a monitor is from the origin of the layout, squared.
pub open spec fn distancia(r: Rect) -> int {
    r.0 * r.0 + r.1 * r.1
}

/// Whether monitor `a` comes before `b` when looking for the one at the
/// origin: nearer to it, then further left, then higher.
pub open spec fn mas_cerca(a: Rect, b: Rect) -> bool {
    ||| distancia(a) < distancia(b)
    ||| distancia(a) == distancia(b) && a.0 < b.0
    ||| distancia(a) == distancia(b) && a.0 == b.0 && a.1 < b.1
}

/// The screen the login box goes on when the pointer has not moved: the
/// primary monitor when there is one among them; otherwise the first of those
/// nearest to the origin of the layout, which is where compositors put the one
/// they consider first (under Wayland there is no primary at all); and the
/// first when there are none.
pub open spec fn es_indice_primario(rs: Seq<Rect>, primario: Option<Rect>, i: int) -> bool {
    match primario {
        Some(p) => if rs.contains(p) {
            0 <= i < rs.len() && rs[i] == p && forall|j: int| 0 <= j < i ==> rs[j] != p
        } else {
            es_el_del_origen(rs, i)
        },
        None => es_el_del_origen(rs, i),
    }
}

/// The first of the monitors nearest to the origin, or 0 when there are none.
pub open spec fn es_el_del_origen(rs: Seq<Rect>, i: int) -> bool {
    if rs.len() == 0 {
        i == 0
    } else {
        &&& 0 <= i < rs.len()
        &&& forall|j: int| 0 <= j < rs.len() ==> !mas_cerca(#[trigger] rs[j], rs[i])
        &&& forall|j: int| 0 <= j < i ==> mas_cerca(rs[i], #[trigger] rs[j])
    }
}

fn distancia_de(r: &Rect) -> (d: i64)
    requires
        distancia(*r) <= i64::MAX,
    ensures
        d == distancia(*r),
{
    let x = r.0 as i64;
    let y = r.1 as i64;
    assert(0 <= x * x <= 0x4000_0000_0000_0000) by (nonlinear_arith)
        requires
            -0x8000_0000 <= x <= 0x7fff_ffff,
    ;
    assert(0 <= y * y <= 0x4000_0000_0000_0000) by (nonlinear_arith)
        requires
            -0x8000_0000 <= y <= 0x7fff_ffff,
    ;
    x * x + y * y
}

fn esta_mas_cerca(a: &Rect, b: &Rect) -> (r: bool)
    requires
        distancia(*a) <= i64::MAX,
        distancia(*b) <= i64::MAX,
    ensures
        r == mas_cerca(*a, *b),
{
    let da = distancia_de(a);
    let db = distancia_de(b);
    da < db || (da == db && a.0 < b.0) || (da == db && a.0 == b.0 && a.1 < b.1)
}

/// Which screen the login box belongs on, given the monitors and the primary
/// one when the compositor reports it.
pub fn primary_index(rects: &[Rect], primary: Option<Rect>) -> (r: usize)
    requires
        forall|i: int| 0 <= i < rects@.len() ==> distancia(#[trigger] rects@[i]) <= i64::MAX,
    ensures
        es_indice_primario(rects@, primary, r as int),
{
    if primary.is_some() {
        let p = primary.unwrap();
        let mut i: usize = 0;
        while i < rects.len()
            invariant
                i <= rects@.len(),
                primary == Some(p),
                forall|j: int| 0 <= j < i ==> rects@[j] != p,
            decreases rects@.len() - i,
        {
            if rects[i].0 == p.0 && rects[i].1 == p.1 && rects[i].2 == p.2 && rects[i].3 == p.3 {
                assert(rects@[i as int] == p);
                assert(rects@.contains(p));
                return i;
            }
            i = i + 1;
        }
        assert(!rects@.contains(p));
    }
    if rects.len() == 0 {
        return 0;
    }
    let mut m: usize = 0;
    let mut i: usize = 1;
    while i < rects.len()
        invariant
            1 <= i <= rects@.len(),
            m < i,
            forall|k: int| 0 <= k < rects@.len() ==> distancia(#[trigger] rects@[k]) <= i64::MAX,
            forall|j: int| 0 <= j < i ==> !mas_cerca(#[trigger] rects@[j], rects@[m as int]),
            forall|j: int| 0 <= j < m ==> mas_cerca(rects@[m as int], #[trigger] rects@[j]),
        decreases rects@.len() - i,
    {
        if esta_mas_cerca(&rects[i], &rects[m]) {
            let ghost viejo = m;
            m = i;
            proof {
                assert forall|j: int| 0 <= j < i + 1 implies !mas_cerca(
                    #[trigger] rects@[j],
                    rects@[m as int],
                ) by {
                    if j < i {
                        assert(!mas_cerca(rects@[j], rects@[viejo as int]));
                    }
                }
                assert forall|j: int| 0 <= j < m implies mas_cerca(
                    rects@[m as int],
                    #[trigger] rects@[j],
                ) by {
                    assert(!mas_cerca(rects@[j], rects@[viejo as int]));
                }
            }
        }
        i = i + 1;
    }
    m
}

/// The smallest of the first coordinates, and of the second.
pub open spec fn minimo_x(rs: Seq<Rect>) -> int
    decreases rs.len(),
{
    if rs.len() <= 1 {
        if rs.len() == 1 {
            rs[0].0 as int
        } else {
            0
        }
    } else if (rs.last().0 as int) < minimo_x(rs.drop_last()) {
        rs.last().0 as int
    } else {
        minimo_x(rs.drop_last())
    }
}

pub open spec fn minimo_y(rs: Seq<Rect>) -> int
    decreases rs.len(),
{
    if rs.len() <= 1 {
        if rs.len() == 1 {
            rs[0].1 as int
        } else {
            0
        }
    } else if (rs.last().1 as int) < minimo_y(rs.drop_last()) {
        rs.last().1 as int
    } else {
        minimo_y(rs.drop_last())
    }
}

proof fn lema_minimos(rs: Seq<Rect>)
    requires
        rs.len() > 0,
    ensures
        forall|i: int| 0 <= i < rs.len() ==> minimo_x(rs) <= (#[trigger] rs[i]).0 && minimo_y(rs) <= rs[i].1,
        exists|i: int| 0 <= i < rs.len() && minimo_x(rs) == (#[trigger] rs[i]).0,
        exists|i: int| 0 <= i < rs.len() && minimo_y(rs) == (#[trigger] rs[i]).1,
    decreases rs.len(),
{
    if rs.len() > 1 {
        let dl = rs.drop_last();
        lema_minimos(dl);
        assert forall|i: int| 0 <= i < rs.len() implies minimo_x(rs) <= (#[trigger] rs[i]).0
            && minimo_y(rs) <= rs[i].1 by {
            if i < rs.len() - 1 {
                assert(rs[i] == dl[i]);
            }
        }
        let a = choose|i: int| 0 <= i < dl.len() && minimo_x(dl) == (#[trigger] dl[i]).0;
        let b = choose|i: int| 0 <= i < dl.len() && minimo_y(dl) == (#[trigger] dl[i]).1;
        assert(rs[a] == dl[a]);
        assert(rs[b] == dl[b]);
        assert(rs[rs.len() - 1] == rs.last());
    } else {
        assert(rs[0] == rs[0]);
    }
}

/// The layout fits in `i32` once moved to the origin: each screen's position
/// and its far edge.
pub open spec fn cabe(rs: Seq<Rect>) -> bool {
    forall|i: int|
        0 <= i < rs.len() ==> {
            &&& (#[trigger] rs[i]).0 - minimo_x(rs) <= i32::MAX
            &&& rs[i].1 - minimo_y(rs) <= i32::MAX
            &&& i32::MIN <= rs[i].0 - minimo_x(rs) + rs[i].2 <= i32::MAX
            &&& i32::MIN <= rs[i].1 - minimo_y(rs) + rs[i].3 <= i32::MAX
        }
}

/// The screens, each moved so that the layout starts at the surface's
/// top-left corner (it does not have to start at (0, 0): a monitor placed
/// above or to the left of the first one has negative coordinates).
pub open spec fn es_pantalla(s: Screen, rs: Seq<Rect>, nombres: Seq<String>, primario: int, i: int) -> bool {
    &&& s.index == i
    &&& s.name@ == nombres[i]@
    &&& s.x == rs[i].0 - minimo_x(rs)
    &&& s.y == rs[i].1 - minimo_y(rs)
    &&& s.width == rs[i].2
    &&& s.height == rs[i].3
    &&& s.primary == (i == primario)
}

/// The far edges of the layout: the largest right edge and bottom edge of the
/// moved screens, 0 without screens.
pub open spec fn ancho(ss: Seq<Screen>) -> int
    decreases ss.len(),
{
    if ss.len() == 0 {
        0
    } else {
        let a = ancho(ss.drop_last());
        let b = ss.last().x + ss.last().width;
        if ss.len() == 1 || b > a {
            b
        } else {
            a
        }
    }
}

pub open spec fn alto(ss: Seq<Screen>) -> int
    decreases ss.len(),
{
    if ss.len() == 0 {
        0
    } else {
        let a = alto(ss.drop_last());
        let b = ss.last().y + ss.last().height;
        if ss.len() == 1 || b > a {
            b
        } else {
            a
        }
    }
}

/// The layout of the screens, given each monitor's rectangle and name and the
/// index of the one the login box starts on.
pub fn screen_layout(rects: &[Rect], names: &[String], primary: usize) -> (r: ScreenLayout)
    requires
        names@.len() == rects@.len(),
        cabe(rects@),
    ensures
        r.screens@.len() == rects@.len(),
        forall|i: int|
            0 <= i < rects@.len() ==> es_pantalla(#[trigger] r.screens@[i], rects@, names@, primary as int, i),
        r.width == ancho(r.screens@),
        r.height == alto(r.screens@),
{
    if rects.len() == 0 {
        return ScreenLayout::default();
    }
    proof {
        lema_minimos(rects@);
    }
    let mut ox = rects[0].0;
    let mut oy = rects[0].1;
    let mut i: usize = 1;
    assert(rects@.take(1).drop_last() =~= Seq::<Rect>::empty());
    while i < rects.len()
        invariant
            1 <= i <= rects@.len(),
            ox == minimo_x(rects@.take(i as int)),
            oy == minimo_y(rects@.take(i as int)),
        decreases rects@.len() - i,
    {
        assert(rects@.take(i + 1).drop_last() =~= rects@.take(i as int));
        assert(rects@.take(i + 1).last() == rects@[i as int]);
        if rects[i].0 < ox {
            ox = rects[i].0;
        }
        if rects[i].1 < oy {
            oy = rects[i].1;
        }
        i = i + 1;
    }
    assert(rects@.take(rects@.len() as int) =~= rects@);
    let mut screens: Vec<Screen> = Vec::new();
    let mut ancho_max: i32 = 0;
    let mut alto_max: i32 = 0;
    let mut j: usize = 0;
    while j < rects.len()
        invariant
            j <= rects@.len() == names@.len(),
            rects@.len() > 0,
            ox == minimo_x(rects@),
            oy == minimo_y(rects@),
            forall|k: int|
                0 <= k < rects@.len() ==> minimo_x(rects@) <= (#[trigger] rects@[k]).0 && minimo_y(
                    rects@,
                ) <= rects@[k].1,
            cabe(rects@),
            screens@.len() == j,
            forall|k: int| 0 <= k < j ==> es_pantalla(#[trigger] screens@[k], rects@, names@, primary as int, k),
            ancho_max == ancho(screens@),
            alto_max == alto(screens@),
        decreases rects@.len() - j,
    {
        let r = rects[j];
        assert(rects@[j as int] == r);
        let x = r.0 - ox;
        let y = r.1 - oy;
        let s = Screen {
            index: j,
            name: names[j].clone(),
            x,
            y,
            width: r.2,
            height: r.3,
            primary: j == primary,
        };
        let derecha = x + r.2;
        let abajo = y + r.3;
        let ghost antes = screens@;
        screens.push(s);
        proof {
            assert(screens@.drop_last() =~= antes);
        }
        if j == 0 || derecha > ancho_max {
            ancho_max = derecha;
        }
        if j == 0 || abajo > alto_max {
            alto_max = abajo;
        }
        j = j + 1;
    }
    ScreenLayout { width: ancho_max, height: alto_max, screens }
}

} // verus!
