use cipollino::layers::{get_audio_state, visible_strokes, LayerContent, LayerTree, SoundRef};

fn animation(show: bool, strokes: Option<Vec<u64>>) -> LayerTree {
    LayerTree { show, content: LayerContent::Animation(strokes) }
}

fn sound(begin: i64, audio: u64) -> SoundRef {
    SoundRef { begin, end: begin + 100, offset: 0, audio }
}

fn sample_layers() -> Vec<LayerTree> {
    vec![
        animation(true, Some(vec![1, 2])),
        LayerTree {
            show: true,
            content: LayerContent::Group(vec![
                animation(true, Some(vec![3])),
                animation(false, Some(vec![4])),
                animation(true, None),
                LayerTree { show: true, content: LayerContent::Audio(vec![sound(0, 7), sound(50, 8)]) },
            ]),
        },
        LayerTree {
            show: false,
            content: LayerContent::Group(vec![animation(true, Some(vec![5]))]),
        },
        LayerTree { show: true, content: LayerContent::Audio(vec![sound(10, 8), sound(20, 9)]) },
        LayerTree { show: false, content: LayerContent::Audio(vec![sound(30, 7)]) },
    ]
}

#[test]
fn strokes_of_shown_layers_in_order() {
    let layers = sample_layers();
    assert_eq!(visible_strokes(Some(&layers)), vec![1, 2, 3]);
}

#[test]
fn no_strokes_without_graphic() {
    assert_eq!(visible_strokes(None), Vec::<u64>::new());
}

#[test]
fn sounds_of_unmuted_layers_with_loaded_audio() {
    let layers = sample_layers();
    let clips = get_audio_state(Some(&layers), &vec![7, 9]).unwrap();
    assert_eq!(clips, vec![sound(0, 7), sound(20, 9)]);
}

#[test]
fn no_audio_state_without_graphic() {
    assert_eq!(get_audio_state(None, &vec![7]), None);
}
