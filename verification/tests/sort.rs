use sakuramml_player::player::ChunkEvent;
use sakuramml_player::sort::sort_stable;

fn ev(sample: usize, note: u8, is_on: bool) -> ChunkEvent {
    ChunkEvent { sample, ch: 0, note, vel: if is_on { 100 } else { 0 }, is_on, bank: 0, program: 0 }
}

#[test]
fn equal_keys_keep_their_order() {
    let v = vec![ev(5, 1, true), ev(5, 2, false), ev(5, 3, true), ev(2, 4, true), ev(5, 5, false)];
    let s = sort_stable(&v);
    assert_eq!(s, vec![ev(2, 4, true), ev(5, 2, false), ev(5, 5, false), ev(5, 1, true), ev(5, 3, true)]);
}
