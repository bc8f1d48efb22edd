//! The session table the coordinator owns, and the decisions it takes
//! on each event: a new connection starts a session, a decoded frame
//! shows or refreshes its window, an ended stream or a decode failure
//! removes it. The table keeps its entries ordered by creation time
//! (ties broken by id) so the layout always sees the sessions in the
//! order they appeared, and it never holds two sessions with one id.

use vstd::prelude::*;

use crate::layout::{
    half, layout_fits, lemma_sum_widths_nonneg, lemma_sum_widths_prefix, lemma_sum_widths_step,
    pos_x, pos_y, sizes_wf, start_x, sum_widths, total_width, PADDING,
};
use crate::window::{shown, spec_pos, spec_size, wf_window, DisplayModel, H264Window, WindowModel};

verus! {

/// Model of one table entry: the session's id, its creation stamp and
/// its window.
pub struct SessionModel {
    pub id: int,
    pub created: int,
    pub win: WindowModel,
}

/// One live session: the id its connection carries, the creation stamp
/// that orders it, and the window it owns.
pub struct Session {
    pub id: i32,
    pub created: u64,
    pub win: H264Window,
}

impl View for Session {
    type V = SessionModel;

    open spec fn view(&self) -> SessionModel {
        SessionModel { id: self.id as int, created: self.created as int, win: self.win@ }
    }
}

/// The creation order: by creation stamp, ties broken by id, so the
/// order is total over distinct ids.
pub open spec fn key_lt(a: SessionModel, b: SessionModel) -> bool {
    a.created < b.created || (a.created == b.created && a.id < b.id)
}

/// Whether some entry carries the id.
pub open spec fn has_id(s: Seq<SessionModel>, id: int) -> bool {
    exists|i: int| 0 <= i < s.len() && #[trigger] s[i].id == id
}

/// Well-formedness of the table: windows well formed, entries strictly
/// ordered by creation key, no id twice.
pub open spec fn wf_table(s: Seq<SessionModel>) -> bool {
    &&& forall|i: int| 0 <= i < s.len() ==> wf_window(#[trigger] s[i].win)
    &&& forall|i: int, j: int| 0 <= i < j < s.len() ==> key_lt(#[trigger] s[i], #[trigger] s[j])
    &&& forall|i: int, j: int|
        0 <= i < s.len() && 0 <= j < s.len() && i != j ==> #[trigger] s[i].id != #[trigger] s[j].id
}

/// The entry a new session starts with: no display yet.
pub open spec fn fresh_session(id: int, created: int, name: Seq<char>) -> SessionModel {
    SessionModel { id, created, win: WindowModel { name, display: None } }
}

/// Insertion at the creation-ordered place.
pub open spec fn sorted_put(s: Seq<SessionModel>, m: SessionModel) -> Seq<SessionModel>
    decreases s.len(),
{
    if s.len() == 0 {
        seq![m]
    } else if key_lt(m, s[0]) {
        seq![m] + s
    } else {
        seq![s[0]] + sorted_put(s.drop_first(), m)
    }
}

/// What starting a session does to the table: a fresh entry at its
/// ordered place, unless the id is already live, which changes
/// nothing.
pub open spec fn spec_start(
    s: Seq<SessionModel>,
    id: int,
    created: int,
    name: Seq<char>,
) -> Seq<SessionModel> {
    if has_id(s, id) {
        s
    } else {
        sorted_put(s, fresh_session(id, created, name))
    }
}

/// What ending a session does to the table: every entry with the id
/// leaves, the rest keep their order; an absent id changes nothing.
pub open spec fn spec_end(s: Seq<SessionModel>, id: int) -> Seq<SessionModel>
    decreases s.len(),
{
    if s.len() == 0 {
        s
    } else if s[0].id == id {
        spec_end(s.drop_first(), id)
    } else {
        seq![s[0]] + spec_end(s.drop_first(), id)
    }
}

/// What one successfully decoded frame does to a window: the first
/// creates the display at the picture's intrinsic size, later ones
/// leave the model unchanged.
pub open spec fn frame_win(m: WindowModel, width: int, height: int) -> WindowModel {
    if shown(m) {
        m
    } else {
        WindowModel {
            display: Some(DisplayModel { width, height, pos: None, visible: true }),
            ..m
        }
    }
}

/// What a decoded frame does to the table: the session's window takes
/// the frame; a stale id (already ended) changes nothing.
pub open spec fn spec_frame(
    s: Seq<SessionModel>,
    id: int,
    width: int,
    height: int,
) -> Seq<SessionModel>
    decreases s.len(),
{
    if s.len() == 0 {
        s
    } else if s[0].id == id {
        seq![SessionModel { win: frame_win(s[0].win, width, height), ..s[0] }] + s.drop_first()
    } else {
        seq![s[0]] + spec_frame(s.drop_first(), id, width, height)
    }
}

proof fn lemma_sorted_put_at(s: Seq<SessionModel>, m: SessionModel, k: int)
    requires
        0 <= k <= s.len(),
        forall|j: int| 0 <= j < k ==> !key_lt(m, #[trigger] s[j]),
        k < s.len() ==> key_lt(m, s[k]),
    ensures
        sorted_put(s, m) == s.take(k) + seq![m] + s.skip(k),
    decreases s.len(),
{
    if s.len() == 0 {
        assert(sorted_put(s, m) =~= s.take(k) + seq![m] + s.skip(k));
    } else if k == 0 {
        assert(sorted_put(s, m) =~= s.take(0) + seq![m] + s.skip(0));
    } else {
        let s2 = s.drop_first();
        assert(forall|j: int| 0 <= j < k - 1 ==> !key_lt(m, #[trigger] s2[j]));
        lemma_sorted_put_at(s2, m, k - 1);
        assert(seq![s[0]] + (s2.take(k - 1) + seq![m] + s2.skip(k - 1)) =~= s.take(k) + seq![m]
            + s.skip(k));
    }
}

/// Membership after an ordered insertion: the new id, and everything
/// that was there.
pub proof fn lemma_put_membership(s: Seq<SessionModel>, m: SessionModel, x: int)
    ensures
        has_id(sorted_put(s, m), x) <==> (has_id(s, x) || m.id == x),
    decreases s.len(),
{
    let r = sorted_put(s, m);
    if s.len() == 0 {
        assert(r[0] == m);
    } else if key_lt(m, s[0]) {
        assert(r == seq![m] + s);
        assert forall|i: int| 0 <= i < s.len() implies s[i] == r[i + 1] by {}
        if has_id(r, x) {
            let i = choose|i: int| 0 <= i < r.len() && r[i].id == x;
            if i == 0 {
                assert(m.id == x);
            } else {
                assert(s[i - 1].id == x);
            }
        }
        if has_id(s, x) {
            let i = choose|i: int| 0 <= i < s.len() && s[i].id == x;
            assert(r[i + 1].id == x);
        }
        if m.id == x {
            assert(r[0].id == x);
        }
    } else {
        let s2 = s.drop_first();
        lemma_put_membership(s2, m, x);
        let r2 = sorted_put(s2, m);
        assert(r == seq![s[0]] + r2);
        if has_id(r, x) {
            let i = choose|i: int| 0 <= i < r.len() && r[i].id == x;
            if i == 0 {
                assert(s[0].id == x);
            } else {
                assert(r2[i - 1].id == x);
            }
        }
        if has_id(s, x) {
            let i = choose|i: int| 0 <= i < s.len() && s[i].id == x;
            if i == 0 {
                assert(r[0].id == x);
            } else {
                assert(s2[i - 1].id == x);
                assert(has_id(s2, x));
                let j = choose|j: int| 0 <= j < r2.len() && r2[j].id == x;
                assert(r[j + 1].id == x);
            }
        }
        if m.id == x {
            let j = choose|j: int| 0 <= j < r2.len() && r2[j].id == x;
            assert(r[j + 1].id == x);
        }
    }
}

/// Ending an absent id changes nothing: the duplicate `SessionEnded`
/// of an already-removed session is idempotent.
pub proof fn lemma_spec_end_absent(s: Seq<SessionModel>, id: int)
    requires
        !has_id(s, id),
    ensures
        spec_end(s, id) == s,
    decreases s.len(),
{
    if s.len() > 0 {
        assert(s[0].id != id);
        let s2 = s.drop_first();
        assert forall|j: int| 0 <= j < s2.len() implies #[trigger] s2[j].id != id by {
            assert(s2[j] == s[j + 1]);
        }
        lemma_spec_end_absent(s2, id);
        assert(seq![s[0]] + s2 =~= s);
    }
}

/// Ending the one session that carries the id removes exactly its
/// entry and carries every other entry over unchanged, in order.
pub proof fn lemma_spec_end_at(s: Seq<SessionModel>, id: int, i: int)
    requires
        0 <= i < s.len(),
        s[i].id == id,
        forall|j: int| 0 <= j < s.len() && j != i ==> #[trigger] s[j].id != id,
    ensures
        spec_end(s, id) == s.subrange(0, i) + s.subrange(i + 1, s.len() as int),
    decreases s.len(),
{
    let s2 = s.drop_first();
    if i == 0 {
        assert forall|j: int| 0 <= j < s2.len() implies #[trigger] s2[j].id != id by {
            assert(s2[j] == s[j + 1]);
        }
        assert(!has_id(s2, id));
        lemma_spec_end_absent(s2, id);
        assert(s2 =~= s.subrange(0, 0) + s.subrange(1, s.len() as int));
    } else {
        assert(s[0].id != id);
        assert(s2[i - 1].id == id);
        assert forall|j: int| 0 <= j < s2.len() && j != i - 1 implies #[trigger] s2[j].id != id by {
            assert(s2[j] == s[j + 1]);
        }
        lemma_spec_end_at(s2, id, i - 1);
        assert(seq![s[0]] + (s2.subrange(0, i - 1) + s2.subrange(i, s2.len() as int))
            =~= s.subrange(0, i) + s.subrange(i + 1, s.len() as int));
    }
}

proof fn lemma_spec_frame_at(s: Seq<SessionModel>, id: int, i: int, width: int, height: int)
    requires
        0 <= i < s.len(),
        s[i].id == id,
        forall|j: int| 0 <= j < i ==> #[trigger] s[j].id != id,
    ensures
        spec_frame(s, id, width, height) == s.update(
            i,
            SessionModel { win: frame_win(s[i].win, width, height), ..s[i] },
        ),
    decreases s.len(),
{
    let s2 = s.drop_first();
    if i == 0 {
        assert(seq![SessionModel { win: frame_win(s[0].win, width, height), ..s[0] }] + s2
            =~= s.update(0, SessionModel { win: frame_win(s[0].win, width, height), ..s[0] }));
    } else {
        assert(s[0].id != id);
        assert(s2[i - 1].id == id);
        assert forall|j: int| 0 <= j < i - 1 implies #[trigger] s2[j].id != id by {
            assert(s2[j] == s[j + 1]);
        }
        lemma_spec_frame_at(s2, id, i - 1, width, height);
        assert(seq![s[0]] + s2.update(
            i - 1,
            SessionModel { win: frame_win(s2[i - 1].win, width, height), ..s2[i - 1] },
        ) =~= s.update(i, SessionModel { win: frame_win(s[i].win, width, height), ..s[i] }));
    }
}

proof fn lemma_spec_frame_absent(s: Seq<SessionModel>, id: int, width: int, height: int)
    requires
        !has_id(s, id),
    ensures
        spec_frame(s, id, width, height) == s,
    decreases s.len(),
{
    if s.len() > 0 {
        assert(s[0].id != id);
        let s2 = s.drop_first();
        assert forall|j: int| 0 <= j < s2.len() implies #[trigger] s2[j].id != id by {
            assert(s2[j] == s[j + 1]);
        }
        lemma_spec_frame_absent(s2, id, width, height);
        assert(seq![s[0]] + s2 =~= s);
    }
}

/// One event the coordinator processes, as the model sees it: a
/// connection accepted, a frame decoded, a stream ended.
pub enum EventModel {
    SessionStarted { id: int, created: int, name: Seq<char> },
    FrameDecoded { id: int, width: int, height: int },
    SessionEnded { id: int },
}

/// Whether the event starts a session with the id.
pub open spec fn starts(e: EventModel, id: int) -> bool {
    match e {
        EventModel::SessionStarted { id: i, .. } => i == id,
        _ => false,
    }
}

/// Whether the event ends the session with the id.
pub open spec fn ends(e: EventModel, id: int) -> bool {
    match e {
        EventModel::SessionEnded { id: i } => i == id,
        _ => false,
    }
}

/// What one event does to the table: exactly what the handler for it
/// ensures.
pub open spec fn table_step(s: Seq<SessionModel>, e: EventModel) -> Seq<SessionModel> {
    match e {
        EventModel::SessionStarted { id, created, name } => spec_start(s, id, created, name),
        EventModel::FrameDecoded { id, width, height } => spec_frame(s, id, width, height),
        EventModel::SessionEnded { id } => spec_end(s, id),
    }
}

/// The table after a whole sequence of events, processed in order.
pub open spec fn table_run(s: Seq<SessionModel>, es: Seq<EventModel>) -> Seq<SessionModel>
    decreases es.len(),
{
    if es.len() == 0 {
        s
    } else {
        table_run(table_step(s, es[0]), es.drop_first())
    }
}

proof fn lemma_has_id_unfold(s: Seq<SessionModel>, x: int)
    requires
        s.len() > 0,
    ensures
        has_id(s, x) <==> (s[0].id == x || has_id(s.drop_first(), x)),
{
    let s2 = s.drop_first();
    if has_id(s, x) {
        let i = choose|i: int| 0 <= i < s.len() && s[i].id == x;
        if i > 0 {
            assert(s2[i - 1].id == x);
        }
    }
    if has_id(s2, x) {
        let i = choose|i: int| 0 <= i < s2.len() && s2[i].id == x;
        assert(s[i + 1].id == x);
    }
    if s[0].id == x {
        assert(has_id(s, x));
    }
}

/// Membership after a start: the started id is live, everything else
/// is exactly as live as before.
pub proof fn lemma_start_membership(
    s: Seq<SessionModel>,
    id: int,
    created: int,
    name: Seq<char>,
    x: int,
)
    ensures
        has_id(spec_start(s, id, created, name), x) <==> (has_id(s, x) || x == id),
{
    if !has_id(s, id) {
        lemma_put_membership(s, fresh_session(id, created, name), x);
    }
}

/// Membership after an end: the ended id is gone, everything else is
/// exactly as live as before.
pub proof fn lemma_end_membership(s: Seq<SessionModel>, id: int, x: int)
    ensures
        has_id(spec_end(s, id), x) <==> (has_id(s, x) && x != id),
    decreases s.len(),
{
    if s.len() == 0 {
        if has_id(spec_end(s, id), x) {
            let i = choose|i: int| 0 <= i < s.len() && s[i].id == x;
        }
    } else {
        let s2 = s.drop_first();
        lemma_end_membership(s2, id, x);
        lemma_has_id_unfold(s, x);
        if s[0].id == id {
        } else {
            let r = seq![s[0]] + spec_end(s2, id);
            assert(r.len() > 0 && r[0] == s[0]);
            assert(r.drop_first() =~= spec_end(s2, id));
            lemma_has_id_unfold(r, x);
        }
    }
}

/// A decoded frame never starts or ends a session: membership is
/// untouched, stale ids included.
pub proof fn lemma_frame_membership(
    s: Seq<SessionModel>,
    id: int,
    width: int,
    height: int,
    x: int,
)
    ensures
        has_id(spec_frame(s, id, width, height), x) <==> has_id(s, x),
    decreases s.len(),
{
    if s.len() > 0 {
        let s2 = s.drop_first();
        lemma_has_id_unfold(s, x);
        if s[0].id == id {
            let m2 = SessionModel { win: frame_win(s[0].win, width, height), ..s[0] };
            let r = seq![m2] + s2;
            assert(r.len() > 0 && r[0] == m2 && m2.id == s[0].id);
            assert(r.drop_first() =~= s2);
            lemma_has_id_unfold(r, x);
        } else {
            lemma_frame_membership(s2, id, width, height, x);
            let r = seq![s[0]] + spec_frame(s2, id, width, height);
            assert(r.len() > 0 && r[0] == s[0]);
            assert(r.drop_first() =~= spec_frame(s2, id, width, height));
            lemma_has_id_unfold(r, x);
        }
    }
}

spec fn live_after(alive: bool, es: Seq<EventModel>, id: int) -> bool
    decreases es.len(),
{
    if es.len() == 0 {
        alive
    } else {
        let a2 = if starts(es[0], id) {
            true
        } else if ends(es[0], id) {
            false
        } else {
            alive
        };
        live_after(a2, es.drop_first(), id)
    }
}

proof fn lemma_run_membership(s: Seq<SessionModel>, es: Seq<EventModel>, id: int)
    ensures
        has_id(table_run(s, es), id) == live_after(has_id(s, id), es, id),
    decreases es.len(),
{
    if es.len() > 0 {
        let s2 = table_step(s, es[0]);
        match es[0] {
            EventModel::SessionStarted { id: i, created, name } => {
                lemma_start_membership(s, i, created, name, id);
            },
            EventModel::FrameDecoded { id: i, width, height } => {
                lemma_frame_membership(s, i, width, height, id);
            },
            EventModel::SessionEnded { id: i } => {
                lemma_end_membership(s, i, id);
            },
        }
        lemma_run_membership(s2, es.drop_first(), id);
    }
}

proof fn lemma_ended_means_dead(alive: bool, es: Seq<EventModel>, id: int)
    requires
        forall|i: int|
            0 <= i < es.len() && starts(#[trigger] es[i], id) ==> exists|j: int|
                i < j < es.len() && ends(#[trigger] es[j], id),
        alive ==> exists|j: int| 0 <= j < es.len() && ends(#[trigger] es[j], id),
    ensures
        !live_after(alive, es, id),
    decreases es.len(),
{
    if es.len() > 0 {
        let es2 = es.drop_first();
        let a2 = if starts(es[0], id) {
            true
        } else if ends(es[0], id) {
            false
        } else {
            alive
        };
        assert forall|i: int| 0 <= i < es2.len() && starts(#[trigger] es2[i], id) implies exists|
            j: int,
        | i < j < es2.len() && ends(#[trigger] es2[j], id) by {
            assert(es2[i] == es[i + 1]);
            assert(starts(es[i + 1], id));
            let j = choose|j: int| i + 1 < j < es.len() && ends(es[j], id);
            assert(es2[j - 1] == es[j]);
            assert(i < j - 1 < es2.len() && ends(es2[j - 1], id));
        }
        if a2 {
            if starts(es[0], id) {
                let j = choose|j: int| 0 < j < es.len() && ends(es[j], id);
                assert(es2[j - 1] == es[j]);
                assert(0 <= j - 1 < es2.len() && ends(es2[j - 1], id));
            } else {
                let j = choose|j: int| 0 <= j < es.len() && ends(es[j], id);
                assert(j != 0);
                assert(es2[j - 1] == es[j]);
                assert(0 <= j - 1 < es2.len() && ends(es2[j - 1], id));
            }
        }
        lemma_ended_means_dead(a2, es2, id);
    }
}

/// Law: however session starts, frames and ends interleave, once
/// every started session's end has been processed, the table is
/// empty.
pub proof fn lemma_all_ended_table_empty(es: Seq<EventModel>)
    requires
        forall|i: int| #![trigger es[i]]
            0 <= i < es.len() ==> match es[i] {
                EventModel::SessionStarted { id, .. } => exists|j: int|
                    i < j < es.len() && ends(#[trigger] es[j], id),
                _ => true,
            },
    ensures
        table_run(Seq::empty(), es).len() == 0,
{
    let t = table_run(Seq::<SessionModel>::empty(), es);
    assert forall|id: int| !has_id(t, id) by {
        assert(!has_id(Seq::<SessionModel>::empty(), id));
        lemma_run_membership(Seq::<SessionModel>::empty(), es, id);
        assert forall|i: int| 0 <= i < es.len() && starts(#[trigger] es[i], id) implies exists|
            j: int,
        | i < j < es.len() && ends(#[trigger] es[j], id) by {
            match es[i] {
                EventModel::SessionStarted { id: si, .. } => {
                    assert(si == id);
                },
                _ => {},
            }
        }
        lemma_ended_means_dead(false, es, id);
    }
    if t.len() > 0 {
        assert(t[0].id == t[0].id);
        assert(has_id(t, t[0].id));
    }
}

/// Law (decode failure is local): ending one live session removes
/// exactly its entry; every other session keeps its entry, its order
/// and its window untouched.
pub proof fn lemma_session_end_isolated(s: Seq<SessionModel>, id: int)
    requires
        wf_table(s),
        has_id(s, id),
    ensures
        spec_end(s, id).len() == s.len() - 1,
        exists|i: int|
            0 <= i < s.len() && (#[trigger] s[i]).id == id && spec_end(s, id) == s.subrange(0, i)
                + s.subrange(i + 1, s.len() as int),
        forall|x: int| x != id ==> (has_id(spec_end(s, id), x) <==> has_id(s, x)),
{
    let i = choose|i: int| 0 <= i < s.len() && s[i].id == id;
    assert(forall|j: int| 0 <= j < s.len() && j != i ==> #[trigger] s[j].id != id);
    lemma_spec_end_at(s, id, i);
    assert(s[i].id == id && spec_end(s, id) == s.subrange(0, i) + s.subrange(
        i + 1,
        s.len() as int,
    ));
    assert forall|x: int| x != id implies (has_id(spec_end(s, id), x) <==> has_id(s, x)) by {
        lemma_end_membership(s, id, x);
    }
}

/// Law (reconnect): after session `a` ends, a later session `d` whose
/// id collides with no still-live session — reusing `a`'s own id is
/// fine — is inserted, and the sessions the next layout sees are
/// exactly the survivors plus `d`: `a` excluded, `d` included.
pub proof fn lemma_reconnect(
    s: Seq<SessionModel>,
    a: int,
    d: int,
    created: int,
    name: Seq<char>,
)
    requires
        !has_id(s, d) || d == a,
    ensures
        has_id(spec_start(spec_end(s, a), d, created, name), d),
        forall|x: int|
            has_id(spec_start(spec_end(s, a), d, created, name), x) <==> (x == d || (has_id(s, x)
                && x != a)),
{
    let t1 = spec_end(s, a);
    assert forall|x: int|
        has_id(spec_start(t1, d, created, name), x) <==> (x == d || (has_id(s, x) && x != a)) by {
        lemma_end_membership(s, a, x);
        lemma_start_membership(t1, d, created, name, x);
    }
}

/// The ordered intrinsic sizes of the sessions whose windows are
/// shown: the row the layout tiles, in creation order.
pub open spec fn active_sizes(s: Seq<SessionModel>) -> Seq<(int, int)>
    decreases s.len(),
{
    if s.len() == 0 {
        Seq::empty()
    } else {
        active_sizes(s.drop_last()) + if shown(s.last().win) {
            seq![spec_size(s.last().win)]
        } else {
            Seq::empty()
        }
    }
}

/// How many shown sessions precede index `i`: the window's place in
/// the row.
pub open spec fn rank(s: Seq<SessionModel>, i: int) -> int {
    active_sizes(s.take(i)).len() as int
}

/// The entry at `i` as one layout pass leaves it: its window placed at
/// the row position of its rank, vertically centred; everything else
/// untouched.
pub open spec fn placed(s: Seq<SessionModel>, i: int, screen_w: int, screen_h: int) -> SessionModel {
    let m = s[i];
    let d = m.win.display->Some_0;
    SessionModel {
        win: WindowModel {
            display: Some(
                DisplayModel {
                    pos: Some(
                        (
                            pos_x(active_sizes(s), screen_w, rank(s, i)),
                            pos_y(d.height, screen_h),
                        ),
                    ),
                    ..d
                },
            ),
            ..m.win
        },
        ..m
    }
}

proof fn lemma_active_take_step(s: Seq<SessionModel>, i: int)
    requires
        0 <= i < s.len(),
    ensures
        active_sizes(s.take(i + 1)) == active_sizes(s.take(i)) + if shown(s[i].win) {
            seq![spec_size(s[i].win)]
        } else {
            Seq::<(int, int)>::empty()
        },
{
    assert(s.take(i + 1).drop_last() =~= s.take(i));
    assert(s.take(i + 1).last() == s[i]);
}

proof fn lemma_active_prefix(s: Seq<SessionModel>, i: int)
    requires
        0 <= i <= s.len(),
    ensures
        active_sizes(s.take(i)).len() <= active_sizes(s).len(),
        active_sizes(s).take(active_sizes(s.take(i)).len() as int) == active_sizes(s.take(i)),
    decreases s.len() - i,
{
    let act = active_sizes(s);
    if i == s.len() {
        assert(s.take(i) =~= s);
        assert(act.take(act.len() as int) =~= act);
    } else {
        lemma_active_prefix(s, i + 1);
        lemma_active_take_step(s, i);
        let a0 = active_sizes(s.take(i));
        let a1 = active_sizes(s.take(i + 1));
        assert(act.take(a0.len() as int) =~= act.take(a1.len() as int).take(a0.len() as int));
        if shown(s[i].win) {
            assert(a1.take(a0.len() as int) =~= a0);
        } else {
            assert(a1 =~= a0);
        }
    }
}

proof fn lemma_active_sizes_wf(s: Seq<SessionModel>)
    requires
        forall|i: int| 0 <= i < s.len() ==> wf_window(#[trigger] s[i].win),
    ensures
        sizes_wf(active_sizes(s)),
    decreases s.len(),
{
    if s.len() > 0 {
        let s2 = s.drop_last();
        assert forall|i: int| 0 <= i < s2.len() implies wf_window(#[trigger] s2[i].win) by {
            assert(s2[i] == s[i]);
        }
        lemma_active_sizes_wf(s2);
    }
}

/// The table of live sessions. Only the coordinator holds it, so only
/// the coordinator ever starts, feeds or ends a session.
pub struct SessionTable {
    entries: Vec<Session>,
}

impl View for SessionTable {
    type V = Seq<SessionModel>;

    closed spec fn view(&self) -> Seq<SessionModel> {
        self.entries@.map_values(|s: Session| s@)
    }
}

impl SessionTable {
    /// An empty table: no session yet.
    pub fn new() -> (r: SessionTable)
        ensures
            r@ == Seq::<SessionModel>::empty(),
            wf_table(r@),
    {
        let t = SessionTable { entries: Vec::new() };
        proof {
            assert(t@ =~= Seq::<SessionModel>::empty());
        }
        t
    }

    /// How many sessions are live.
    pub fn len(&self) -> (r: usize)
        ensures
            r == self@.len(),
    {
        self.entries.len()
    }

    /// Whether a session with the id is live.
    pub fn contains(&self, id: i32) -> (r: bool)
        ensures
            r == has_id(self@, id as int),
    {
        let n = self.entries.len();
        let mut i: usize = 0;
        while i < n
            invariant
                i <= n,
                n == self@.len(),
                forall|j: int| 0 <= j < i ==> self@[j].id != id as int,
            decreases n - i,
        {
            if self.entries[i].id == id {
                assert(self@[i as int].id == id as int);
                return true;
            }
            i = i + 1;
        }
        false
    }

    /// Starts a session: a fresh entry, no display yet, at its place
    /// in creation order. Returns whether the session was inserted;
    /// an id already live leaves the table unchanged and returns
    /// `false`, so a live session can never be displaced.
    pub fn on_new_session(&mut self, id: i32, created: u64, name: String) -> (r: bool)
        requires
            wf_table(old(self)@),
        ensures
            wf_table(final(self)@),
            final(self)@ == spec_start(old(self)@, id as int, created as int, name@),
            r == !has_id(old(self)@, id as int),
    {
        let ghost s0 = self@;
        let ghost m = fresh_session(id as int, created as int, name@);
        if self.contains(id) {
            return false;
        }
        let n = self.entries.len();
        let mut k: usize = 0;
        while k < n && (self.entries[k].created < created || (self.entries[k].created == created
            && self.entries[k].id < id))
            invariant
                k <= n,
                n == self@.len(),
                s0 == self@,
                wf_table(s0),
                m == fresh_session(id as int, created as int, name@),
                !has_id(s0, id as int),
                forall|j: int| 0 <= j < k ==> key_lt(#[trigger] s0[j], m),
            decreases n - k,
        {
            assert(key_lt(s0[k as int], m));
            k = k + 1;
        }
        proof {
            if k < n {
                assert(s0[k as int].id != id as int);
                assert(key_lt(m, s0[k as int]));
            }
            assert(forall|j: int| 0 <= j < k ==> !key_lt(m, #[trigger] s0[j]));
            lemma_sorted_put_at(s0, m, k as int);
        }
        let win = H264Window::new(name);
        self.entries.insert(k, Session { id, created, win });
        proof {
            assert(self@ =~= s0.take(k as int) + seq![m] + s0.skip(k as int));
            let r = self@;
            assert forall|i: int, j: int| 0 <= i < j < r.len() implies key_lt(r[i], r[j]) by {
                if j < k {
                    assert(r[i] == s0[i] && r[j] == s0[j]);
                } else if i < k && j == k {
                    assert(r[i] == s0[i] && r[j] == m);
                } else if i < k && j > k {
                    assert(r[i] == s0[i] && r[j] == s0[j - 1]);
                } else if i == k {
                    assert(r[i] == m && r[j] == s0[j - 1]);
                    assert(k < s0.len());
                    assert(key_lt(m, s0[k as int]));
                    if j - 1 > k {
                        assert(key_lt(s0[k as int], s0[j - 1]));
                    }
                } else {
                    assert(r[i] == s0[i - 1] && r[j] == s0[j - 1]);
                }
            }
            assert forall|i: int, j: int|
                0 <= i < r.len() && 0 <= j < r.len() && i != j implies r[i].id != r[j].id by {
                let oi: int = if i < k { i } else { i - 1 };
                let oj: int = if j < k { j } else { j - 1 };
                if i == k && j != k {
                    assert(r[j] == s0[oj]);
                    assert(s0[oj].id != id as int);
                } else if j == k && i != k {
                    assert(r[i] == s0[oi]);
                    assert(s0[oi].id != id as int);
                } else {
                    assert(r[i] == s0[oi] && r[j] == s0[oj]);
                }
            }
            assert(forall|i: int| 0 <= i < r.len() ==> wf_window(#[trigger] r[i].win));
        }
        true
    }

    /// Ends a session: its entry leaves the table, every other entry
    /// stays untouched and in order. A duplicate end, or one for a
    /// session never started, changes nothing. Returns whether an
    /// entry was removed. A decode failure is handled the same way:
    /// it is terminal for its session alone.
    pub fn on_session_ended(&mut self, id: i32) -> (r: bool)
        requires
            wf_table(old(self)@),
        ensures
            wf_table(final(self)@),
            final(self)@ == spec_end(old(self)@, id as int),
            r == has_id(old(self)@, id as int),
            final(self)@.len() == if has_id(old(self)@, id as int) {
                old(self)@.len() - 1
            } else {
                old(self)@.len() as int
            },
    {
        let ghost s0 = self@;
        let n = self.entries.len();
        let mut i: usize = 0;
        while i < n && self.entries[i].id != id
            invariant
                i <= n,
                n == self@.len(),
                s0 == self@,
                forall|j: int| 0 <= j < i ==> #[trigger] s0[j].id != id as int,
            decreases n - i,
        {
            i = i + 1;
        }
        if i == n {
            proof {
                lemma_spec_end_absent(s0, id as int);
            }
            return false;
        }
        assert(s0[i as int].id == id as int);
        let _removed = self.entries.remove(i);
        proof {
            assert forall|j: int| 0 <= j < s0.len() && j != i implies #[trigger] s0[j].id
                != id as int by {}
            lemma_spec_end_at(s0, id as int, i as int);
            assert(self@ =~= s0.subrange(0, i as int) + s0.subrange(i + 1, s0.len() as int));
            let r_ = self@;
            assert(forall|j: int|
                0 <= j < r_.len() ==> r_[j] == (if j < i { s0[j] } else { s0[j + 1] }));
            assert(forall|j: int| 0 <= j < r_.len() ==> wf_window(#[trigger] r_[j].win));
            assert(forall|p: int, q: int| 0 <= p < q < r_.len() ==> key_lt(
                #[trigger] r_[p],
                #[trigger] r_[q],
            ));
            assert(forall|p: int, q: int|
                0 <= p < r_.len() && 0 <= q < r_.len() && p != q ==> #[trigger] r_[p].id
                    != #[trigger] r_[q].id);
        }
        true
    }

    /// Takes one successfully decoded picture for a session. A stale
    /// id — the session already ended — is discarded and nothing
    /// changes. Otherwise the session's window takes the frame: the
    /// first picture creates its display at the picture's intrinsic
    /// size, later pictures leave the table's state as it was (the
    /// refresh happens on the surface outside). Returns whether the
    /// display was newly created, which is what obliges the caller to
    /// recompute the layout.
    pub fn on_frame_decoded(&mut self, id: i32, width: i32, height: i32) -> (r: bool)
        requires
            wf_table(old(self)@),
            0 <= width,
            0 <= height,
        ensures
            wf_table(final(self)@),
            final(self)@ == spec_frame(old(self)@, id as int, width as int, height as int),
            r == exists|i: int|
                0 <= i < old(self)@.len() && (#[trigger] old(self)@[i]).id == id as int
                    && !shown(old(self)@[i].win),
    {
        let ghost s0 = self@;
        let n = self.entries.len();
        let mut i: usize = 0;
        while i < n && self.entries[i].id != id
            invariant
                i <= n,
                n == self@.len(),
                s0 == self@,
                forall|j: int| 0 <= j < i ==> #[trigger] s0[j].id != id as int,
            decreases n - i,
        {
            i = i + 1;
        }
        if i == n {
            proof {
                lemma_spec_frame_absent(s0, id as int, width as int, height as int);
                assert(!has_id(s0, id as int));
            }
            return false;
        }
        assert(s0[i as int].id == id as int);
        let mut entry = self.entries.remove(i);
        let newly = !entry.win.is_shown();
        entry.win.draw(width, height);
        self.entries.insert(i, entry);
        proof {
            lemma_spec_frame_at(s0, id as int, i as int, width as int, height as int);
            let m2 = SessionModel { win: frame_win(s0[i as int].win, width as int, height as int),
                ..s0[i as int] };
            assert(self@ =~= s0.update(i as int, m2));
            let r_ = self@;
            assert(forall|j: int| 0 <= j < r_.len() && j != i ==> r_[j] == s0[j]);
            assert(wf_window(m2.win));
            assert(forall|j: int| 0 <= j < r_.len() ==> wf_window(#[trigger] r_[j].win));
            assert(forall|p: int, q: int| 0 <= p < q < r_.len() ==> key_lt(
                #[trigger] r_[p],
                #[trigger] r_[q],
            ));
            assert(forall|p: int, q: int|
                0 <= p < r_.len() && 0 <= q < r_.len() && p != q ==> #[trigger] r_[p].id
                    != #[trigger] r_[q].id);
            if newly {
                assert(0 <= i < s0.len() && s0[i as int].id == id as int && !shown(
                    s0[i as int].win,
                ));
            } else {
                assert forall|j: int|
                    0 <= j < s0.len() && (#[trigger] s0[j]).id == id as int implies shown(
                    s0[j].win,
                ) by {
                    assert(j == i);
                }
            }
        }
        newly
    }

    /// Where the session's window was last placed, if it is live, has
    /// a display and the layout has placed it.
    pub fn position_of(&self, id: i32) -> (r: Option<(i32, i32)>)
        requires
            wf_table(self@),
        ensures
            match r {
                Some(p) => exists|i: int|
                    0 <= i < self@.len() && (#[trigger] self@[i]).id == id as int && spec_pos(
                        self@[i].win,
                    ) == Some((p.0 as int, p.1 as int)),
                None => forall|i: int|
                    0 <= i < self@.len() && (#[trigger] self@[i]).id == id as int ==> spec_pos(
                        self@[i].win,
                    ) is None,
            },
    {
        let n = self.entries.len();
        let mut i: usize = 0;
        while i < n
            invariant
                i <= n,
                n == self@.len(),
                wf_table(self@),
                forall|j: int| 0 <= j < i ==> #[trigger] self@[j].id != id as int,
            decreases n - i,
        {
            if self.entries[i].id == id {
                assert(self@[i as int].id == id as int);
                let r = self.entries[i].win.position();
                assert(self@[i as int].win == self.entries@[i as int]@.win);
                proof {
                    if r is Some {
                        let p = r->Some_0;
                        assert(spec_pos(self@[i as int].win) == Some((p.0 as int, p.1 as int)));
                    }
                    if r is None {
                        assert forall|j: int|
                            0 <= j < self@.len() && (#[trigger] self@[j]).id == id as int
                            implies spec_pos(self@[j].win) is None by {
                            assert(j == i);
                        }
                    }
                }
                return r;
            }
            i = i + 1;
        }
        None
    }

    /// Recomputes the whole layout from scratch: every shown window is
    /// placed at its row position in creation order, horizontally
    /// centred as a group and vertically centred each; sessions still
    /// waiting for their first picture are untouched. Nothing else of
    /// any entry changes.
    pub fn align_windows(&mut self, screen_w: i32, screen_h: i32)
        requires
            wf_table(old(self)@),
            layout_fits(active_sizes(old(self)@), screen_w as int, screen_h as int),
        ensures
            wf_table(final(self)@),
            final(self)@.len() == old(self)@.len(),
            forall|j: int|
                0 <= j < old(self)@.len() && !shown(old(self)@[j].win) ==> final(self)@[j]
                    == old(self)@[j],
            forall|j: int|
                0 <= j < old(self)@.len() && shown(old(self)@[j].win) ==> final(self)@[j]
                    == placed(old(self)@, j, screen_w as int, screen_h as int),
    {
        let ghost s0 = self@;
        let ghost act = active_sizes(s0);
        let ghost sw = screen_w as int;
        let ghost sh = screen_h as int;
        proof {
            lemma_active_sizes_wf(s0);
            lemma_sum_widths_nonneg(act);
        }
        let n = self.entries.len();
        let mut sum: i64 = 0;
        let mut cnt: i64 = 0;
        let mut i: usize = 0;
        while i < n
            invariant
                i <= n,
                n == s0.len(),
                s0 == self@,
                wf_table(s0),
                act == active_sizes(s0),
                sizes_wf(act),
                layout_fits(act, sw, sh),
                cnt == active_sizes(s0.take(i as int)).len(),
                act.take(cnt as int) == active_sizes(s0.take(i as int)),
                sum == sum_widths(act.take(cnt as int)),
            decreases n - i,
        {
            proof {
                lemma_active_prefix(s0, i as int);
                lemma_active_prefix(s0, i + 1);
                lemma_active_take_step(s0, i as int);
                lemma_sum_widths_prefix(act, cnt as int);
                lemma_sum_widths_nonneg(act);
            }
            if self.entries[i].win.is_shown() {
                let (w, _h) = self.entries[i].win.size();
                proof {
                    let a1 = active_sizes(s0.take(i + 1));
                    assert(a1.len() == cnt + 1);
                    assert(act.take(cnt + 1) =~= a1);
                    assert(a1[cnt as int] == spec_size(s0[i as int].win));
                    assert(act.take(cnt + 1)[cnt as int] == act[cnt as int]);
                    assert(act[cnt as int] == spec_size(s0[i as int].win));
                    lemma_sum_widths_step(act, cnt as int);
                    lemma_sum_widths_prefix(act, cnt + 1);
                }
                sum = sum + w as i64;
                cnt = cnt + 1;
            } else {
                proof {
                    assert(act.take(cnt as int) =~= active_sizes(s0.take(i + 1)));
                }
            }
            i = i + 1;
        }
        proof {
            assert(s0.take(n as int) =~= s0);
            assert(act.take(cnt as int) =~= act);
        }
        let total: i64 = sum + (PADDING as i64) * (cnt - 1);
        assert(total == total_width(act));
        let d: i64 = screen_w as i64 - total;
        let x0: i64 = d / 2;
        proof {
            assert(x0 == half(d as int));
            assert(x0 == start_x(act, sw));
            if d < 0 {
                vstd::arithmetic::div_mod::lemma_div_is_ordered(-(d as int), 0x8000_0000, 2);
                vstd::arithmetic::div_mod::lemma_div_multiples_vanish(0x4000_0000, 2);
                assert(x0 >= -0x4000_0000);
            }
        }
        let mut x: i64 = x0;
        let mut k: i64 = 0;
        let mut i: usize = 0;
        while i < n
            invariant
                i <= n,
                n == s0.len(),
                n == self@.len(),
                wf_table(s0),
                act == active_sizes(s0),
                sizes_wf(act),
                layout_fits(act, sw, sh),
                sw == screen_w as int,
                sh == screen_h as int,
                x0 == start_x(act, sw),
                x0 >= -0x4000_0000,
                k == active_sizes(s0.take(i as int)).len(),
                act.take(k as int) == active_sizes(s0.take(i as int)),
                x == x0 + sum_widths(act.take(k as int)) + (PADDING as int) * k,
                forall|j: int| i <= j < n ==> self@[j] == s0[j],
                forall|j: int|
                    0 <= j < i && !shown(s0[j].win) ==> self@[j] == s0[j],
                forall|j: int|
                    0 <= j < i && shown(s0[j].win) ==> self@[j] == placed(s0, j, sw, sh),
            decreases n - i,
        {
            proof {
                lemma_active_prefix(s0, i as int);
                lemma_active_prefix(s0, i + 1);
                lemma_active_take_step(s0, i as int);
                lemma_sum_widths_prefix(act, k as int);
                lemma_sum_widths_nonneg(act);
            }
            let ghost before = self@;
            let mut entry = self.entries.remove(i);
            assert(entry@ == s0[i as int]);
            if entry.win.is_shown() {
                proof {
                    let a1 = active_sizes(s0.take(i + 1));
                    assert(a1.len() == k + 1);
                    assert(act.take(k + 1) =~= a1);
                    assert(a1[k as int] == spec_size(s0[i as int].win));
                    assert(act.take(k + 1)[k as int] == act[k as int]);
                    assert(act[k as int] == spec_size(s0[i as int].win));
                    lemma_sum_widths_step(act, k as int);
                    lemma_sum_widths_prefix(act, k + 1);
                    assert(x + act[k as int].0 + (PADDING as int) <= x0 + sum_widths(act)
                        + (PADDING as int) * act.len()) by {
                        assert(sum_widths(act.take(k + 1)) <= sum_widths(act));
                        assert(k + 1 <= act.len());
                    }
                }
                let (w, h) = entry.win.size();
                let hd: i64 = screen_h as i64 - h as i64;
                let y: i64 = hd / 2;
                proof {
                    assert(hd == sh - act[k as int].1);
                    assert(y == pos_y(act[k as int].1, sh));
                    if hd < 0 {
                        vstd::arithmetic::div_mod::lemma_div_is_ordered(
                            -(hd as int),
                            0x8000_0000,
                            2,
                        );
                        vstd::arithmetic::div_mod::lemma_div_multiples_vanish(0x4000_0000, 2);
                        assert(y >= -0x4000_0000);
                    } else {
                        vstd::arithmetic::div_mod::lemma_div_nonincreasing(hd as int, 2);
                    }
                    assert(x == pos_x(act, sw, k as int));
                    assert(i32::MIN <= x <= i32::MAX);
                    assert(i32::MIN <= y <= i32::MAX);
                }
                entry.win.set_position(x as i32, y as i32);
                self.entries.insert(i, entry);
                proof {
                    assert(self@ =~= before.update(i as int, placed(s0, i as int, sw, sh)));
                }
                x = x + w as i64 + PADDING as i64;
                k = k + 1;
            } else {
                self.entries.insert(i, entry);
                proof {
                    assert(self@ =~= before);
                    assert(act.take(k as int) =~= active_sizes(s0.take(i + 1)));
                }
            }
            i = i + 1;
        }
        proof {
            let r_ = self@;
            assert forall|p: int| 0 <= p < r_.len() implies #[trigger] r_[p].id == s0[p].id
                && r_[p].created == s0[p].created && wf_window(r_[p].win) by {
                if shown(s0[p].win) {
                    assert(r_[p] == placed(s0, p, sw, sh));
                } else {
                    assert(r_[p] == s0[p]);
                }
            }
            assert(forall|p: int, q: int| 0 <= p < q < r_.len() ==> key_lt(
                #[trigger] r_[p],
                #[trigger] r_[q],
            ));
            assert(forall|p: int, q: int|
                0 <= p < r_.len() && 0 <= q < r_.len() && p != q ==> #[trigger] r_[p].id
                    != #[trigger] r_[q].id);
        }
    }
}

} // verus!
