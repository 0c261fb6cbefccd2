//! What is seen on the screen, counted in pixels: which shape stands where, how large it
//! is and in which colour.

use vstd::prelude::*;
use vstd::arithmetic::power2::pow2;
use crate::cradle::{Ball, Turn, ball_r, centres, held, pivot_y, string_l};
use crate::dust::Particle;
use crate::exact::{lemma_dec_int, lemma_representable, lemma_sub_exact};
use crate::float::{Float, dec};
use crate::near::{abs, near, num, lemma_add_near, lemma_dec_near, lemma_int_num, lemma_num_order, lemma_sub_near, lemma_times_dec, lemma_tiny};
use crate::scene::{Caption, Color, Draw, Ui, all_balls, all_sliders, all_trails, backdrop, ball_shapes, captions, frame, leg, readout, scene, shade, specks};
use crate::vector::Vec2;

verus! {

/// Whether a colour has these components, up to a millionth.
pub open spec fn tinted(c: Color, r: real, g: real, b: real, a: real) -> bool {
    &&& near(c.r, r, 1real / 1000000real)
    &&& near(c.g, g, 1real / 1000000real)
    &&& near(c.b, b, 1real / 1000000real)
    &&& near(c.a, a, 1real / 1000000real)
}

/// The colour of a shape.
pub open spec fn tint(d: Draw) -> Color {
    match d {
        Draw::Clear { color } => color,
        Draw::Rectangle { color, .. } => color,
        Draw::Line { color, .. } => color,
        Draw::Circle { color, .. } => color,
        Draw::Ellipse { color, .. } => color,
        Draw::Text { color, .. } => color,
    }
}

/// Whether a shape is a disc around a point, up to `e` pixels.
pub open spec fn disc(d: Draw, x: real, y: real, r: real, e: real) -> bool {
    d matches Draw::Circle { x: dx, y: dy, r: dr, .. } && near(dx, x, e) && near(dy, y, e) && near(dr, r, e)
}

/// Whether a shape is a line from one point to another, up to `e` pixels.
pub open spec fn stroke(d: Draw, x: real, y: real, u: real, v: real, w: real, e: real) -> bool {
    d matches Draw::Line { x1, y1, x2, y2, thickness, .. } && near(x1, x, e) && near(y1, y, e) && near(
        x2,
        u,
        e,
    ) && near(y2, v, e) && near(thickness, w, e)
}

/// Whether a shape is an upright rectangle with this corner, width and height, up to `e`
/// pixels.
pub open spec fn block(d: Draw, x: real, y: real, w: real, h: real, e: real) -> bool {
    d matches Draw::Rectangle { x: dx, y: dy, w: dw, h: dh, .. } && near(dx, x, e) && near(dy, y, e) && near(
        dw,
        w,
        e,
    ) && near(dh, h, e)
}

/// Whether a shape is a piece of text with this size at this place, up to `e` pixels.
pub open spec fn words(d: Draw, caption: Caption, x: real, y: real, size: real, e: real) -> bool {
    d matches Draw::Text { caption: c, x: dx, y: dy, size: ds, .. } && c == caption && near(dx, x, e)
        && near(dy, y, e) && near(ds, size, e)
}

pub proof fn lemma_shade(r: u64, g: u64, b: u64, a: u64)
    requires
        r <= 100,
        g <= 100,
        b <= 100,
        a <= 100,
    ensures
        tinted(
            shade(r, g, b, a),
            r as real / 100real,
            g as real / 100real,
            b as real / 100real,
            a as real / 100real,
        ),
{
    lemma_tiny();
    lemma_dec_near(r, 100);
    lemma_dec_near(g, 100);
    lemma_dec_near(b, 100);
    lemma_dec_near(a, 100);
}

/// Whether a length is one that a screen can have.
pub open spec fn on_screen(a: Float) -> bool {
    a.finite() && abs(num(a)) <= 0x1_0000real
}

/// Whether a number is a sine or a cosine.
pub open spec fn a_ratio(a: Float) -> bool {
    a.finite() && abs(num(a)) <= 1real
}

/// How far a place may be off, given the lengths it comes from: a millionth of them.
pub open spec fn slack(a: Float) -> real {
    (abs(num(a)) + 1000real) / 0x10_0000real
}

/// The centre of a ball is a string's length from its pivot: 250 pixels times the sine
/// across, and 250 times the cosine below the bar, which is 130 pixels down.
pub proof fn balls_hang_on_their_strings(b: Ball, sin: Float, cos: Float)
    requires
        on_screen(b.pivot_x),
        a_ratio(sin),
        a_ratio(cos),
    ensures
        near(b.pos(sin, cos).x, num(b.pivot_x) + 250real * num(sin), slack(b.pivot_x) / 2real),
        near(b.pos(sin, cos).y, 130real + 250real * num(cos), 1real / 4000real),
{
    lemma_tiny();
    lemma_int_num(130);
    lemma_times_dec(250, 1, sin);
    lemma_times_dec(250, 1, cos);
    lemma_add_near(b.pivot_x, string_l().mul(sin));
    lemma_add_near(pivot_y(), string_l().mul(cos));
}

/// The number of segments of the first `n` trails: one less than places, where there are any.
pub open spec fn segments(trails: Seq<Seq<Vec2>>, n: nat) -> nat
    decreases n,
{
    if n == 0 {
        0
    } else {
        segments(trails, (n - 1) as nat) + if trails[n - 1].len() > 0 {
            (trails[n - 1].len() - 1) as nat
        } else {
            0
        }
    }
}

pub proof fn lemma_trail_count(trails: Seq<Seq<Vec2>>, n: nat)
    ensures
        all_trails(trails, n).len() == segments(trails, n),
    decreases n,
{
    if n > 0 {
        lemma_trail_count(trails, (n - 1) as nat);
    }
}

proof fn lemma_ball_parts(balls: Seq<Ball>, at: Seq<Vec2>, dragging: Option<usize>, sh: Float, n: nat, i: int)
    requires
        0 <= i < n,
    ensures
        all_balls(balls, at, dragging, sh, n).len() == 7 * n,
        all_balls(balls, at, dragging, sh, n).subrange(7 * i, 7 * i + 7) == ball_shapes(
            balls[i],
            at[i],
            held(dragging, i),
            sh,
        ),
    decreases n,
{
    let all = all_balls(balls, at, dragging, sh, n);
    let before = all_balls(balls, at, dragging, sh, (n - 1) as nat);
    if i == n - 1 {
        lemma_ball_count(balls, at, dragging, sh, (n - 1) as nat);
    } else {
        lemma_ball_parts(balls, at, dragging, sh, (n - 1) as nat, i);
        assert(all.subrange(7 * i, 7 * i + 7) =~= before.subrange(7 * i, 7 * i + 7));
    }
    assert(all.subrange(7 * i, 7 * i + 7) =~= ball_shapes(
        balls[i],
        at[i],
        held(dragging, i),
        sh,
    ));
}

proof fn lemma_ball_count(balls: Seq<Ball>, at: Seq<Vec2>, dragging: Option<usize>, sh: Float, n: nat)
    ensures
        all_balls(balls, at, dragging, sh, n).len() == 7 * n,
    decreases n,
{
    if n > 0 {
        lemma_ball_count(balls, at, dragging, sh, (n - 1) as nat);
    }
}

/// Where the parts of the scene begin: the balls, the particles, the readout, the sliders
/// and the captions come one after the other, behind them wall, frame and trails.
pub proof fn lemma_scene(
    balls: Seq<Ball>,
    turns: Seq<Turn>,
    trails: Seq<Seq<Vec2>>,
    particles: Seq<Particle>,
    dragging: Option<usize>,
    ui: Ui,
    sw: Float,
    sh: Float,
)
    ensures
        ({
            let s = scene(balls, turns, trails, particles, dragging, ui, sw, sh);
            let b: int = 7int + segments(trails, trails.len());
            let p = b + 7 * balls.len();
            let r = p + particles.len();
            &&& s.len() == r + 25
            &&& s.subrange(0, 2) == backdrop(sw, sh)
            &&& s.subrange(2, 7) == frame(balls, sw, sh)
            &&& s.subrange(7, b) == all_trails(trails, trails.len())
            &&& s.subrange(b, p) == all_balls(
                balls,
                centres(balls, turns),
                dragging,
                sh,
                balls.len(),
            )
            &&& s.subrange(p, r) == specks(particles)
            &&& s.subrange(r, r + 9) == readout(balls, turns, sw)
            &&& s.subrange(r + 9, r + 21) == all_sliders(ui)
            &&& s.subrange(r + 21, r + 25) == captions(balls.len(), ui, sh)
        }),
{
    lemma_trail_count(trails, trails.len());
    lemma_ball_count(balls, centres(balls, turns), dragging, sh, balls.len());
    let s = scene(balls, turns, trails, particles, dragging, ui, sw, sh);
    let b: int = 7int + segments(trails, trails.len());
    let p = b + 7 * balls.len();
    let r = p + particles.len();
    let (x0, x1, x2) = (backdrop(sw, sh), frame(balls, sw, sh), all_trails(trails, trails.len()));
    let x3 = all_balls(balls, centres(balls, turns), dragging, sh, balls.len());
    let (x4, x5, x6, x7) = (
        specks(particles),
        readout(balls, turns, sw),
        all_sliders(ui),
        captions(balls.len(), ui, sh),
    );
    assert(x0.len() == 2 && x1.len() == 5 && x5.len() == 9 && x6.len() == 12 && x7.len() == 4);
    lemma_eight(x0, x1, x2, x3, x4, x5, x6, x7);
}

/// The parts of a list that was put together from eight.
proof fn lemma_eight(
    a: Seq<Draw>,
    b: Seq<Draw>,
    c: Seq<Draw>,
    d: Seq<Draw>,
    e: Seq<Draw>,
    f: Seq<Draw>,
    g: Seq<Draw>,
    h: Seq<Draw>,
)
    ensures
        ({
            let s = a + b + c + d + e + f + g + h;
            let n1 = (a.len() + b.len()) as int;
            let n2 = n1 + c.len();
            let n3 = n2 + d.len();
            let n4 = n3 + e.len();
            let n5 = n4 + f.len();
            let n6 = n5 + g.len();
            let n7 = n6 + h.len();
            &&& s.len() == n7
            &&& s.subrange(0, a.len() as int) == a
            &&& s.subrange(a.len() as int, n1) == b
            &&& s.subrange(n1, n2) == c
            &&& s.subrange(n2, n3) == d
            &&& s.subrange(n3, n4) == e
            &&& s.subrange(n4, n5) == f
            &&& s.subrange(n5, n6) == g
            &&& s.subrange(n6, n7) == h
        }),
{
    let s = a + b + c + d + e + f + g + h;
    let n1 = (a.len() + b.len()) as int;
    let n2 = n1 + c.len();
    let n3 = n2 + d.len();
    let n4 = n3 + e.len();
    let n5 = n4 + f.len();
    let n6 = n5 + g.len();
    let n7 = n6 + h.len();
    assert(s.subrange(0, a.len() as int) =~= a);
    assert(s.subrange(a.len() as int, n1) =~= b);
    assert(s.subrange(n1, n2) =~= c);
    assert(s.subrange(n2, n3) =~= d);
    assert(s.subrange(n3, n4) =~= e);
    assert(s.subrange(n4, n5) =~= f);
    assert(s.subrange(n5, n6) =~= g);
    assert(s.subrange(n6, n7) =~= h);
}

/// The parts of the radius of a ball.
proof fn lemma_radii()
    ensures
        ball_r().finite(),
        num(ball_r()) == 28real,
        near(ball_r().mul(dec(9, 10)), 252real / 10real, 1real / 100000real),
        near(ball_r().mul(dec(28, 100)), 784real / 100real, 1real / 100000real),
        near(ball_r().mul(dec(62, 100)), 1736real / 100real, 1real / 100000real),
        near(ball_r().mul(dec(32, 100)), 896real / 100real, 1real / 100000real),
        near(ball_r().mul(dec(34, 100)), 952real / 100real, 1real / 100000real),
        near(ball_r().mul(dec(24, 100)), 672real / 100real, 1real / 100000real),
        near(ball_r().sub(dec(25, 10)), 255real / 10real, 1real / 100000real),
{
    lemma_tiny();
    lemma_int_num(28);
    lemma_dec_near(25, 10);
    lemma_times_dec(9, 10, ball_r());
    lemma_times_dec(28, 100, ball_r());
    lemma_times_dec(62, 100, ball_r());
    lemma_times_dec(32, 100, ball_r());
    lemma_times_dec(34, 100, ball_r());
    lemma_times_dec(24, 100, ball_r());
    lemma_sub_near(ball_r(), dec(25, 10));
}

/// The floor that the shadows lie on.
proof fn lemma_floor(sh: Float)
    requires
        on_screen(sh),
    ensures
        near(sh.mul(dec(78, 100)), 78real * num(sh) / 100real, slack(sh) / 2real),
        near(sh.mul(dec(78, 100)).add(dec(12, 1)), 78real * num(sh) / 100real + 12real, slack(sh)),
{
    lemma_tiny();
    lemma_int_num(12);
    lemma_times_dec(78, 100, sh);
    lemma_add_near(sh.mul(dec(78, 100)), dec(12, 1));
}

/// The shapes of one ball at a place.
proof fn lemma_ball_shapes(b: Ball, p: Vec2, is_held: bool, sh: Float, x: real, y: real, e: real)
    requires
        on_screen(b.pivot_x),
        on_screen(sh),
        near(p.x, x, e),
        near(p.y, y, e),
        0real <= e <= 1real,
        abs(x) <= 0x1_0400real,
        abs(y) <= 0x400real,
    ensures
        ({
            let s = ball_shapes(b, p, is_held, sh);
            let f = e + (abs(x) + 1000real) / 0x100_0000real;
            &&& stroke(s[0], num(b.pivot_x), 130real, x, y, 2real, e)
            &&& disc(s[1], num(b.pivot_x), 128real, 4real, 0real)
            &&& s[2] matches Draw::Ellipse { x: ex, y: ey, w, h, rotation, .. } && near(ex, x, e) && near(
                ey,
                78real * num(sh) / 100real + 12real,
                slack(sh),
            ) && near(w, 252real / 10real, 1real / 10000real) && near(h, 784real / 100real, 1real / 10000real)
                && num(rotation) == 0real
            &&& disc(s[3], x, y, 28real, e)
            &&& disc(s[4], x, y, 255real / 10real, e + 1real / 100000real)
            &&& disc(s[5], x, y, 1736real / 100real, e + 1real / 100000real)
            &&& disc(s[6], x - 896real / 100real, y - 952real / 100real, 672real / 100real, f + 1real / 10000real)
        }),
{
    lemma_int_num(0);
    lemma_int_num(2);
    lemma_int_num(4);
    lemma_int_num(130);
    lemma_sub_exact_num(130, 2);
    lemma_floor(sh);
    lemma_radii();
    lemma_sub_near(p.x, ball_r().mul(dec(32, 100)));
    lemma_sub_near(p.y, ball_r().mul(dec(34, 100)));
}

/// The colours of one ball.
proof fn lemma_ball_colours(b: Ball, p: Vec2, is_held: bool, sh: Float)
    ensures
        ({
            let s = ball_shapes(b, p, is_held, sh);
            &&& tinted(tint(s[0]), 80real / 100real, 80real / 100real, 85real / 100real, 90real / 100real)
            &&& tinted(tint(s[1]), 30real / 100real, 32real / 100real, 38real / 100real, 1real)
            &&& tinted(tint(s[2]), 0real, 0real, 0real, 25real / 100real)
            &&& tinted(tint(s[3]), 12real / 100real, 13real / 100real, 16real / 100real, 1real)
            &&& tinted(tint(s[6]), 1real, 1real, 1real, 85real / 100real)
            &&& is_held ==> tinted(tint(s[4]), 95real / 100real, 82real / 100real, 45real / 100real, 1real)
                && tinted(tint(s[5]), 95real / 100real, 82real / 100real, 45real / 100real, 55real / 100real)
            &&& !is_held ==> tinted(tint(s[4]), 78real / 100real, 80real / 100real, 86real / 100real, 1real)
                && tinted(tint(s[5]), 78real / 100real, 80real / 100real, 86real / 100real, 55real / 100real)
        }),
{
    lemma_tiny();
    lemma_shade(80, 80, 85, 90);
    lemma_shade(30, 32, 38, 100);
    lemma_shade(0, 0, 0, 25);
    lemma_shade(12, 13, 16, 100);
    lemma_shade(100, 100, 100, 85);
    lemma_shade(95, 82, 45, 100);
    lemma_shade(78, 80, 86, 100);
    lemma_dec_near(55, 100);
}

/// A difference of small integers is exact.
pub proof fn lemma_sub_exact_num(a: u64, b: u64)
    requires
        b <= a <= 0x1_0000,
    ensures
        dec(a, 1).sub(dec(b, 1)).finite(),
        num(dec(a, 1).sub(dec(b, 1))) == (a - b) as real,
{
    lemma_dec_int(a);
    lemma_dec_int(b);
    let d = (a - b) as u64;
    lemma_dec_int(d);
    let p = pow2(149);
    assert(a * p - b * p == d * p) by (nonlinear_arith)
        requires
            d == a - b,
    ;
    assert(d * p >= 0) by (nonlinear_arith);
    lemma_representable(d * p, d as nat, 149);
    lemma_sub_exact(dec(a, 1), dec(b, 1));
    lemma_int_num(d);
    lemma_num_order(dec(a, 1).sub(dec(b, 1)), dec(d, 1));
}

/// Every ball is drawn where it hangs: the string runs from its pivot to 250 pixels along
/// the angle, the discs of the ball lie around its end, the shadow lies on the floor
/// below, and the shine a third of the radius up and left. A held ball is golden.
pub proof fn balls_are_drawn_where_they_hang(
    balls: Seq<Ball>,
    turns: Seq<Turn>,
    trails: Seq<Seq<Vec2>>,
    particles: Seq<Particle>,
    dragging: Option<usize>,
    ui: Ui,
    sw: Float,
    sh: Float,
    i: int,
)
    requires
        0 <= i < balls.len() == turns.len(),
        balls.len() <= usize::MAX,
        on_screen(balls[i].pivot_x),
        on_screen(sh),
        a_ratio(turns[i].sin),
        a_ratio(turns[i].cos),
    ensures
        ({
            let s = scene(balls, turns, trails, particles, dragging, ui, sw, sh);
            let k = 7 + segments(trails, trails.len()) + 7 * i;
            let pivot = num(balls[i].pivot_x);
            let x = pivot + 250real * num(turns[i].sin);
            let y = 130real + 250real * num(turns[i].cos);
            let e = slack(balls[i].pivot_x);
            &&& k + 7 <= s.len()
            &&& stroke(s[k], pivot, 130real, x, y, 2real, e)
            &&& tinted(tint(s[k]), 80real / 100real, 80real / 100real, 85real / 100real, 90real / 100real)
            &&& disc(s[k + 1], pivot, 128real, 4real, e)
            &&& tinted(tint(s[k + 1]), 30real / 100real, 32real / 100real, 38real / 100real, 1real)
            &&& s[k + 2] matches Draw::Ellipse { x: ex, y: ey, w, h, rotation, .. } && near(ex, x, e)
                && near(ey, 78real * num(sh) / 100real + 12real, slack(sh)) && near(w, 252real / 10real, e)
                && near(h, 784real / 100real, e) && num(rotation) == 0real
            &&& tinted(tint(s[k + 2]), 0real, 0real, 0real, 25real / 100real)
            &&& disc(s[k + 3], x, y, 28real, e)
            &&& tinted(tint(s[k + 3]), 12real / 100real, 13real / 100real, 16real / 100real, 1real)
            &&& disc(s[k + 4], x, y, 255real / 10real, e)
            &&& disc(s[k + 5], x, y, 1736real / 100real, e)
            &&& disc(s[k + 6], x - 896real / 100real, y - 952real / 100real, 672real / 100real, e)
            &&& tinted(tint(s[k + 6]), 1real, 1real, 1real, 85real / 100real)
            &&& if dragging == Some(i as usize) {
                tinted(tint(s[k + 4]), 95real / 100real, 82real / 100real, 45real / 100real, 1real)
                    && tinted(tint(s[k + 5]), 95real / 100real, 82real / 100real, 45real / 100real, 55real / 100real)
            } else {
                tinted(tint(s[k + 4]), 78real / 100real, 80real / 100real, 86real / 100real, 1real)
                    && tinted(tint(s[k + 5]), 78real / 100real, 80real / 100real, 86real / 100real, 55real / 100real)
            }
        }),
{
    let s = scene(balls, turns, trails, particles, dragging, ui, sw, sh);
    let at = centres(balls, turns);
    let b: int = 7int + segments(trails, trails.len());
    let k = b + 7 * i;
    lemma_scene(balls, turns, trails, particles, dragging, ui, sw, sh);
    lemma_ball_parts(balls, at, dragging, sh, balls.len(), i);
    let all = all_balls(balls, at, dragging, sh, balls.len());
    let own = ball_shapes(balls[i], at[i], held(dragging, i), sh);
    assert forall|j: int| 0 <= j < 7 implies s[k + j] == #[trigger] own[j] by {
        assert(s.subrange(b, b + 7 * balls.len())[7 * i + j] == s[k + j]);
        assert(all.subrange(7 * i, 7 * i + 7)[j] == all[7 * i + j]);
    }
    assert(s[k + 0] == own[0] && s[k + 1] == own[1] && s[k + 2] == own[2] && s[k + 3] == own[3]);
    assert(s[k + 4] == own[4] && s[k + 5] == own[5] && s[k + 6] == own[6]);
    balls_hang_on_their_strings(balls[i], turns[i].sin, turns[i].cos);
    lemma_ball_colours(balls[i], at[i], held(dragging, i), sh);
    lemma_ball_shapes(
        balls[i],
        at[i],
        held(dragging, i),
        sh,
        num(balls[i].pivot_x) + 250real * num(turns[i].sin),
        130real + 250real * num(turns[i].cos),
        slack(balls[i].pivot_x) / 2real,
    );
}

/// The wall fills the screen, and the floor its lower 45 hundredths.
pub proof fn wall_and_floor_are_drawn(
    balls: Seq<Ball>,
    turns: Seq<Turn>,
    trails: Seq<Seq<Vec2>>,
    particles: Seq<Particle>,
    dragging: Option<usize>,
    ui: Ui,
    sw: Float,
    sh: Float,
)
    requires
        on_screen(sw),
        on_screen(sh),
    ensures
        ({
            let s = scene(balls, turns, trails, particles, dragging, ui, sw, sh);
            let e = slack(sh);
            &&& s.len() == 32 + segments(trails, trails.len()) + 7 * balls.len() + particles.len()
            &&& s[0] is Clear
            &&& tinted(tint(s[0]), 8real / 100real, 9real / 100real, 12real / 100real, 1real)
            &&& block(s[1], 0real, 55real * num(sh) / 100real, num(sw), 45real * num(sh) / 100real, e)
            &&& tinted(tint(s[1]), 5real / 100real, 6real / 100real, 9real / 100real, 1real)
        }),
{
    lemma_scene(balls, turns, trails, particles, dragging, ui, sw, sh);
    let s = scene(balls, turns, trails, particles, dragging, ui, sw, sh);
    assert(s.subrange(0, 2)[0] == s[0] && s.subrange(0, 2)[1] == s[1]);
    lemma_tiny();
    lemma_int_num(0);
    lemma_shade(8, 9, 12, 100);
    lemma_shade(5, 6, 9, 100);
    lemma_times_dec(55, 100, sh);
    lemma_times_dec(45, 100, sh);
}

/// A place a few pixels beside another.
pub proof fn lemma_beside(a: Float, k: u64)
    requires
        a.finite(),
        abs(num(a)) <= 0x2_0000real,
        k <= 0x400,
    ensures
        near(a.add(dec(k, 1)), num(a) + k as real, (abs(num(a)) + k as real) / 0x100_0000real),
        near(a.sub(dec(k, 1)), num(a) - k as real, (abs(num(a)) + k as real) / 0x100_0000real),
{
    lemma_int_num(k);
    lemma_add_near(a, dec(k, 1));
    lemma_sub_near(a, dec(k, 1));
}

/// The ends of the bar.
proof fn lemma_bar_ends(first: Float, last: Float)
    requires
        on_screen(first),
        on_screen(last),
    ensures
        near(first.sub(ball_r()).sub(dec(30, 1)), num(first) - 58real, slack(first) / 4real),
        near(last.add(ball_r()).add(dec(30, 1)), num(last) + 58real, slack(last) / 4real),
{
    lemma_beside(first, 28);
    lemma_beside(first.sub(ball_r()), 30);
    lemma_beside(last, 28);
    lemma_beside(last.add(ball_r()), 30);
}

/// A leg and its foot at a place.
proof fn lemma_leg(x: Float, at: real, e: real, sh: Float)
    requires
        near(x, at, e),
        0real <= e <= 1real,
        abs(at) <= 0x1_0400real,
        on_screen(sh),
    ensures
        ({
            let s = leg(x, sh);
            let floor = 78real * num(sh) / 100real;
            let f = e + (abs(at) + abs(num(sh)) + 1000real) / 0x20_0000real;
            &&& block(s[0], at, 116real, 12real, floor - 130real, f)
            &&& block(s[1], at - 24real, floor, 60real, 12real, f)
            &&& tinted(tint(s[0]), 62real / 100real, 65real / 100real, 72real / 100real, 1real)
            &&& tinted(tint(s[1]), 62real / 100real, 65real / 100real, 72real / 100real, 1real)
        }),
{
    lemma_tiny();
    lemma_shade(62, 65, 72, 100);
    lemma_int_num(12);
    lemma_int_num(60);
    lemma_int_num(130);
    lemma_sub_exact_num(130, 14);
    lemma_times_dec(78, 100, sh);
    let floor = sh.mul(dec(78, 100));
    lemma_sub_near(floor, pivot_y());
    lemma_beside(x, 24);
}

/// The bar and where its legs stand.
proof fn lemma_bar(a: Float, b: Float)
    requires
        on_screen(a),
        on_screen(b),
    ensures
        ({
            let (x, y) = (a.sub(ball_r()).sub(dec(30, 1)), b.add(ball_r()).add(dec(30, 1)));
            &&& near(x, num(a) - 58real, slack(a) / 2real)
            &&& near(y.sub(x), num(b) - num(a) + 116real, slack(a) + slack(b))
            &&& near(x.add(dec(6, 1)), num(a) - 52real, slack(a) / 2real)
            &&& near(y.sub(dec(18, 1)), num(b) + 40real, slack(b) / 2real)
        }),
{
    let (x, y) = (a.sub(ball_r()).sub(dec(30, 1)), b.add(ball_r()).add(dec(30, 1)));
    lemma_bar_ends(a, b);
    lemma_beside(x, 6);
    lemma_beside(y, 18);
    lemma_sub_near(y, x);
}

/// The shapes of the frame.
proof fn lemma_frame(balls: Seq<Ball>, sw: Float, sh: Float)
    requires
        balls.len() > 0,
        on_screen(balls[0].pivot_x),
        on_screen(balls.last().pivot_x),
        on_screen(sh),
    ensures
        ({
            let s = frame(balls, sw, sh);
            let left = num(balls[0].pivot_x) - 58real;
            let right = num(balls.last().pivot_x) + 58real;
            let floor = 78real * num(sh) / 100real;
            let e = slack(balls[0].pivot_x) + slack(balls.last().pivot_x) + slack(sh);
            &&& block(s[0], left, 116real, right - left, 16real, e)
            &&& block(s[1], left + 6real, 116real, 12real, floor - 130real, e)
            &&& block(s[2], left - 18real, floor, 60real, 12real, e)
            &&& block(s[3], right - 18real, 116real, 12real, floor - 130real, e)
            &&& block(s[4], right - 42real, floor, 60real, 12real, e)
            &&& forall|j: int| 0 <= j < 5 ==> tinted(
                tint(#[trigger] s[j]),
                62real / 100real,
                65real / 100real,
                72real / 100real,
                1real,
            )
        }),
{
    let s = frame(balls, sw, sh);
    let (a, b) = (balls[0].pivot_x, balls.last().pivot_x);
    let (x, y) = (a.sub(ball_r()).sub(dec(30, 1)), b.add(ball_r()).add(dec(30, 1)));
    lemma_bar(a, b);
    let (l, r) = (x.add(dec(6, 1)), y.sub(dec(18, 1)));
    lemma_leg(l, num(a) - 52real, slack(a) / 2real, sh);
    lemma_leg(r, num(b) + 40real, slack(b) / 2real, sh);
    assert(s[1] == leg(l, sh)[0] && s[2] == leg(l, sh)[1]);
    assert(s[3] == leg(r, sh)[0] && s[4] == leg(r, sh)[1]);
    lemma_shade(62, 65, 72, 100);
    lemma_int_num(16);
    lemma_sub_exact_num(130, 14);
}

/// The frame stands around the balls: its bar reaches 58 pixels beyond the first and the
/// last pivot, 16 pixels high around the height of the pivots, and under both its ends
/// stand a leg down to the floor and a foot.
pub proof fn frame_stands_around_the_balls(
    balls: Seq<Ball>,
    turns: Seq<Turn>,
    trails: Seq<Seq<Vec2>>,
    particles: Seq<Particle>,
    dragging: Option<usize>,
    ui: Ui,
    sw: Float,
    sh: Float,
)
    requires
        balls.len() > 0,
        on_screen(balls[0].pivot_x),
        on_screen(balls.last().pivot_x),
        on_screen(sh),
    ensures
        ({
            let s = scene(balls, turns, trails, particles, dragging, ui, sw, sh);
            let left = num(balls[0].pivot_x) - 58real;
            let right = num(balls.last().pivot_x) + 58real;
            let floor = 78real * num(sh) / 100real;
            let e = slack(balls[0].pivot_x) + slack(balls.last().pivot_x) + slack(sh);
            &&& block(s[2], left, 116real, right - left, 16real, e)
            &&& block(s[3], left + 6real, 116real, 12real, floor - 130real, e)
            &&& block(s[4], left - 18real, floor, 60real, 12real, e)
            &&& block(s[5], right - 18real, 116real, 12real, floor - 130real, e)
            &&& block(s[6], right - 42real, floor, 60real, 12real, e)
            &&& forall|j: int| 2 <= j < 7 ==> tinted(
                tint(#[trigger] s[j]),
                62real / 100real,
                65real / 100real,
                72real / 100real,
                1real,
            )
        }),
{
    lemma_scene(balls, turns, trails, particles, dragging, ui, sw, sh);
    let s = scene(balls, turns, trails, particles, dragging, ui, sw, sh);
    let part = s.subrange(2, 7);
    assert forall|j: int| 2 <= j < 7 implies #[trigger] s[j] == part[j - 2] by {}
    lemma_frame(balls, sw, sh);
    assert(s[2] == part[0] && s[3] == part[1] && s[4] == part[2] && s[5] == part[3] && s[6] == part[4]);
}

} // verus!
