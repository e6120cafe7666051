//! Which of the faces found in a photo are worth keeping, and what is returned for a photo.
use crate::blur::{blur_values, face_part};
use crate::face::{FaceBox, FaceData};
use crate::select::{
    law_selection_exact, lemma_selection_agrees, lemma_selection_filters, names_places, pick,
    selected,
};
use crate::single::Single;
use image::DynamicImage;
use vstd::prelude::*;

verus! {

/// What is asked of a face: how sure the network has to be, which share of the photo's area and how
/// many pixels on each side the face has to take up, and how sharp it has to be. A measure that is
/// not a number passes.
pub struct Demands {
    pub min_confidence: Single,
    pub min_face_ratio: Single,
    pub min_face_size: Single,
    pub min_blur_score: Single,
}

/// Whether neither side of a face is below `min_face_size` pixels.
pub open spec fn is_large(face: FaceBox, min_face_size: Single) -> bool {
    !face.width.lt(min_face_size) && !face.height.lt(min_face_size)
}

/// Whether the network is sure of a face and it is neither small in the photo nor small in pixels.
/// `ratio` is the share of the photo's area that the face takes up.
pub open spec fn is_prominent(face: FaceBox, ratio: Single, demands: Demands) -> bool {
    &&& !face.confidence.lt(demands.min_confidence)
    &&& !ratio.lt(demands.min_face_ratio)
    &&& is_large(face, demands.min_face_size)
}

/// The blur score of a face: what was measured, and 0 where there was too little to measure.
pub open spec fn sharpness_of(measured: Option<Single>) -> Single {
    match measured {
        Some(score) => score,
        None => Single { bits: 0 },
    }
}

/// Whether a face is good enough: prominent and sharp.
pub open spec fn is_good(
    face: FaceBox,
    ratio: Single,
    score: Option<Single>,
    demands: Demands,
) -> bool {
    is_prominent(face, ratio, demands) && !sharpness_of(score).lt(demands.min_blur_score)
}

/// The numbers of the good ones among faces with the given area ratios and blur scores.
pub open spec fn good_places(
    faces: Seq<FaceBox>,
    ratios: Seq<Single>,
    scores: Seq<Option<Single>>,
    demands: Demands,
) -> Seq<int> {
    selected(
        |i: int| is_good(faces[i], ratios[i], scores[i], demands),
        faces.len() as int,
    )
}

/// The good ones among faces with the given area ratios and blur scores, in order.
pub open spec fn good_faces(
    faces: Seq<FaceBox>,
    ratios: Seq<Single>,
    scores: Seq<Option<Single>>,
    demands: Demands,
) -> Seq<FaceBox> {
    good_places(faces, ratios, scores, demands).map_values(|i: int| faces[i])
}

/// Tells whether the blur score of a face has to be measured: only then can it be good.
pub fn needs_score(face: &FaceBox, ratio: Single, demands: &Demands) -> (answer: bool)
    ensures
        answer == is_prominent(*face, ratio, *demands),
{
    !face.confidence.less_than(&demands.min_confidence) && !ratio.less_than(
        &demands.min_face_ratio,
    ) && !face.width.less_than(&demands.min_face_size) && !face.height.less_than(
        &demands.min_face_size,
    )
}

/// Keeps the faces that are good enough, given the share of the photo's area that each takes up and
/// its blur score; `None` where a face has no score, which counts as 0.
pub fn keep_good(
    faces: Vec<FaceBox>,
    ratios: &Vec<Single>,
    scores: &Vec<Option<Single>>,
    demands: &Demands,
) -> (kept: Vec<FaceBox>)
    requires
        ratios@.len() == faces@.len(),
        scores@.len() == faces@.len(),
    ensures
        kept@ == good_faces(faces@, ratios@, scores@, *demands),
{
    let ghost whole = faces@;
    let ghost wanted = |i: int| is_good(whole[i], ratios@[i], scores@[i], *demands);
    let count = faces.len();
    let mut places: Vec<usize> = Vec::new();
    let mut i: usize = 0;
    while i < count
        invariant
            0 <= i <= count,
            whole == faces@,
            count == faces@.len(),
            count == ratios@.len(),
            count == scores@.len(),
            wanted == (|i: int| is_good(whole[i], ratios@[i], scores@[i], *demands)),
            places@.len() == selected(wanted, i as int).len(),
            forall|c: int|
                0 <= c < places@.len() ==> #[trigger] places@[c] == selected(wanted, i as int)[c],
        decreases count - i,
    {
        assert(wanted(i as int) == is_good(
            whole[i as int],
            ratios@[i as int],
            scores@[i as int],
            *demands,
        ));
        let score = scores[i].unwrap_or(Single::from_bits(0));
        if needs_score(&faces[i], ratios[i], demands) && !score.less_than(
            &demands.min_blur_score,
        ) {
            places.push(i);
        }
        i += 1;
    }
    proof {
        lemma_places_named(places@, wanted, count as int);
    }
    let kept = pick(faces, &places);
    assert(kept@ =~= good_faces(whole, ratios@, scores@, *demands));
    kept
}

/// Places that list a selection name different places.
proof fn lemma_places_named(places: Seq<usize>, wanted: spec_fn(int) -> bool, count: int)
    requires
        count >= 0,
        places.len() == selected(wanted, count).len(),
        forall|c: int|
            0 <= c < places.len() ==> #[trigger] places[c] == selected(wanted, count)[c],
    ensures
        names_places(places, count),
{
    law_selection_exact(wanted, count);
    let chosen = selected(wanted, count);
    assert forall|a: int| 0 <= a < places.len() implies #[trigger] places[a] < count by {
        assert(chosen[a] < count);
    }
    assert forall|a: int, b: int| 0 <= a < b < places.len() implies places[a] != places[b] by {
        assert(chosen[a] < chosen[b]);
    }
}

/// Of the faces found in a photo, exactly the good ones are left when those of low quality are
/// dropped (low confidence, small size, blurry), in the order in which they were found. `ratio` is
/// the share of the photo's area that a face takes up, `score` its blur score.
pub proof fn law_good_faces_left(
    faces: Seq<FaceBox>,
    ratio: spec_fn(FaceBox) -> Single,
    score: spec_fn(FaceBox) -> Option<Single>,
    demands: Demands,
)
    ensures
        good_faces(faces, faces.map_values(ratio), faces.map_values(score), demands)
            == faces.filter(|face: FaceBox| is_good(face, ratio(face), score(face), demands)),
{
    let good = |face: FaceBox| is_good(face, ratio(face), score(face), demands);
    let (ratios, scores) = (faces.map_values(ratio), faces.map_values(score));
    lemma_selection_agrees(
        |i: int| is_good(faces[i], ratios[i], scores[i], demands),
        |i: int| good(faces[i]),
        faces.len() as int,
    );
    lemma_selection_filters(faces, good);
}

/// What is kept are exactly the good faces, each once and in order.
pub proof fn law_kept_exactly(
    faces: Seq<FaceBox>,
    ratios: Seq<Single>,
    scores: Seq<Option<Single>>,
    demands: Demands,
)
    ensures
        ({
            let places = good_places(faces, ratios, scores, demands);
            let kept = good_faces(faces, ratios, scores, demands);
            &&& kept.len() == places.len()
            &&& forall|c: int|
                0 <= c < kept.len() ==> 0 <= places[c] < faces.len() && #[trigger] kept[c]
                    == faces[places[c]] && is_good(
                    faces[places[c]],
                    ratios[places[c]],
                    scores[places[c]],
                    demands,
                )
            &&& forall|c: int, d: int|
                0 <= c < d < places.len() ==> #[trigger] places[c] < #[trigger] places[d]
            &&& forall|i: int|
                0 <= i < faces.len() && is_good(#[trigger] faces[i], ratios[i], scores[i], demands)
                    ==> places.contains(i)
        }),
{
    let wanted = |i: int| is_good(faces[i], ratios[i], scores[i], demands);
    law_selection_exact(wanted, faces.len() as int);
    let places = good_places(faces, ratios, scores, demands);
    let kept = good_faces(faces, ratios, scores, demands);
    assert forall|c: int| 0 <= c < kept.len() implies 0 <= places[c] < faces.len()
        && #[trigger] kept[c] == faces[places[c]] && is_good(
        faces[places[c]],
        ratios[places[c]],
        scores[places[c]],
        demands,
    ) by {
        assert(wanted(places[c]));
    }
    assert forall|i: int|
        0 <= i < faces.len() && is_good(
            #[trigger] faces[i],
            ratios[i],
            scores[i],
            demands,
        ) implies places.contains(i) by {
        assert(wanted(i));
    }
}

/// The blur score of a face that need not be measured does not count: whatever stands in its place,
/// the same faces are kept.
pub proof fn law_unneeded_score_does_not_count(
    faces: Seq<FaceBox>,
    ratios: Seq<Single>,
    scores: Seq<Option<Single>>,
    others: Seq<Option<Single>>,
    demands: Demands,
)
    requires
        forall|i: int|
            0 <= i < faces.len() && is_prominent(faces[i], ratios[i], demands)
                ==> #[trigger] scores[i] == others[i],
    ensures
        good_faces(faces, ratios, scores, demands) == good_faces(faces, ratios, others, demands),
{
    let one = |i: int| is_good(faces[i], ratios[i], scores[i], demands);
    let other = |i: int| is_good(faces[i], ratios[i], others[i], demands);
    assert forall|i: int| 0 <= i < faces.len() implies #[trigger] one(i) == other(i) by {
        if is_prominent(faces[i], ratios[i], demands) {
            assert(scores[i] == others[i]);
        }
    }
    lemma_selection_agrees(one, other, faces.len() as int);
}

/// A face that takes up less than three pixels from one side to the other is dropped as soon as
/// any sharpness is asked for: it has no blur score, and none that is above zero is reached.
pub proof fn law_tiny_face_dropped(
    img: DynamicImage,
    faces: Seq<FaceBox>,
    ratios: Seq<Single>,
    scores: Seq<Option<Single>>,
    demands: Demands,
    room_x: Single,
    room_y: Single,
    values: Option<Vec<i16>>,
    i: int,
)
    requires
        0 <= i < faces.len(),
        face_part(&faces[i], room_x, room_y).2 < 3 || face_part(&faces[i], room_x, room_y).3 < 3,
        blur_values(img, &faces[i], room_x, room_y, values),
        values is None ==> scores[i] is None,
        (Single { bits: 0 }).lt(demands.min_blur_score),
    ensures
        !is_good(faces[i], ratios[i], scores[i], demands),
        !good_places(faces, ratios, scores, demands).contains(i),
{
    let wanted = |k: int| is_good(faces[k], ratios[k], scores[k], demands);
    law_selection_exact(wanted, faces.len() as int);
    assert(!wanted(i));
}

/// The first failure among the outcomes, if there is one.
pub open spec fn first_failure<T>(outcomes: Seq<Result<T, String>>) -> Option<String>
    decreases outcomes.len(),
{
    if outcomes.len() == 0 {
        None
    } else {
        match outcomes[0] {
            Err(message) => Some(message),
            Ok(_) => first_failure(outcomes.drop_first()),
        }
    }
}

/// Tells whether another embedding is to be taken: none has failed, and there is a face without
/// one.
pub fn wants_more(faces: &Vec<FaceBox>, embeddings: &Vec<Result<Vec<Single>, String>>) -> (answer:
    bool)
    ensures
        answer <==> first_failure(embeddings@) is None && embeddings@.len() < faces@.len(),
{
    proof {
        law_first_failure(embeddings@);
    }
    let mut i: usize = 0;
    #[verifier::loop_isolation(false)]
    while i < embeddings.len()
        invariant
            0 <= i <= embeddings@.len(),
            forall|j: int| 0 <= j < i ==> #[trigger] embeddings@[j] is Ok,
        decreases embeddings@.len() - i,
    {
        if embeddings[i].is_err() {
            assert(!(embeddings@[i as int] is Ok));
            return false;
        }
        i += 1;
    }
    embeddings.len() < faces.len()
}

/// Joins each face to its embedding. Embeddings are taken in the order of the faces until one
/// fails; the first failure is then the outcome for the whole photo. With the faces comes the
/// size of the photo.
pub fn attach_embeddings(
    faces: Vec<FaceBox>,
    embeddings: Vec<Result<Vec<Single>, String>>,
    size: (u32, u32),
) -> (outcome: Result<(Vec<FaceData>, (u32, u32)), String>)
    requires
        first_failure(embeddings@) is None ==> embeddings@.len() == faces@.len(),
        embeddings@.len() <= faces@.len(),
    ensures
        match first_failure(embeddings@) {
            Some(message) => outcome == Err::<(Vec<FaceData>, (u32, u32)), String>(message),
            None => {
                &&& outcome is Ok
                &&& outcome->Ok_0.1 == size
                &&& outcome->Ok_0.0@.len() == faces@.len()
                &&& forall|i: int|
                    0 <= i < faces@.len() ==> (#[trigger] outcome->Ok_0.0@[i]).bbox == faces@[i]
                        && Ok::<Vec<Single>, String>(outcome->Ok_0.0@[i].embedding) == embeddings@[i]
            },
        },
{
    let ghost all_faces = faces@;
    let ghost all_embeddings = embeddings@;
    let mut faces = faces;
    let mut embeddings = embeddings;
    let mut results: Vec<FaceData> = Vec::new();
    let count = embeddings.len();
    let mut done: usize = 0;
    assert(all_faces.skip(0) =~= all_faces);
    assert(all_embeddings.skip(0) =~= all_embeddings);
    #[verifier::loop_isolation(false)]
    while embeddings.len() > 0
        invariant
            0 <= done <= count <= all_faces.len(),
            count == all_embeddings.len(),
            faces@ == all_faces.skip(done as int),
            embeddings@ == all_embeddings.skip(done as int),
            first_failure(all_embeddings) == first_failure(embeddings@),
            results@.len() == done,
            forall|i: int|
                0 <= i < done ==> (#[trigger] results@[i]).bbox == all_faces[i] && Ok::<
                    Vec<Single>,
                    String,
                >(results@[i].embedding) == all_embeddings[i],
        decreases embeddings@.len(),
    {
        let ghost rest = embeddings@;
        let face = faces.remove(0);
        let embedding = embeddings.remove(0);
        assert(embeddings@ =~= rest.drop_first());
        assert(rest[0] == all_embeddings[done as int]);
        assert(faces@ =~= all_faces.skip(done + 1));
        assert(embeddings@ =~= all_embeddings.skip(done + 1));
        match embedding {
            Ok(embedding) => {
                results.push(FaceData { bbox: face, embedding });
            },
            Err(message) => {
                assert(first_failure(rest) == Some(message));
                return Err(message);
            },
        }
        done += 1;
    }
    Ok((results, size))
}

/// The first failure is a failure, and what comes before it are successes.
pub proof fn law_first_failure<T>(outcomes: Seq<Result<T, String>>)
    ensures
        match first_failure(outcomes) {
            Some(message) => exists|i: int|
                0 <= i < outcomes.len() && #[trigger] outcomes[i] == Err::<T, String>(message) && (
                forall|j: int| 0 <= j < i ==> #[trigger] outcomes[j] is Ok),
            None => forall|j: int| 0 <= j < outcomes.len() ==> #[trigger] outcomes[j] is Ok,
        },
    decreases outcomes.len(),
{
    if outcomes.len() > 0 && outcomes[0] is Ok {
        let rest = outcomes.drop_first();
        law_first_failure(rest);
        match first_failure(outcomes) {
            Some(message) => {
                let i = choose|i: int|
                    0 <= i < rest.len() && #[trigger] rest[i] == Err::<T, String>(message) && (
                    forall|j: int| 0 <= j < i ==> #[trigger] rest[j] is Ok);
                assert(outcomes[i + 1] == Err::<T, String>(message));
                assert forall|j: int| 0 <= j < i + 1 implies #[trigger] outcomes[j] is Ok by {
                    if j > 0 {
                        assert(rest[j - 1] is Ok);
                    }
                }
            },
            None => {
                assert forall|j: int| 0 <= j < outcomes.len() implies #[trigger] outcomes[j] is Ok by {
                    if j > 0 {
                        assert(rest[j - 1] is Ok);
                    }
                }
            },
        }
    }
}

/// A face is good exactly if nothing that is measured of it is below what is asked: how sure the
/// network is, its share of the photo, its width, its height, and its blur score, which is 0 where
/// there is none. Nothing else counts.
pub proof fn law_good_by_numbers(
    face: FaceBox,
    ratio: Single,
    score: Option<Single>,
    demands: Demands,
)
    ensures
        is_prominent(face, ratio, demands) <==> {
            &&& !face.confidence.lt(demands.min_confidence)
            &&& !ratio.lt(demands.min_face_ratio)
            &&& !face.width.lt(demands.min_face_size)
            &&& !face.height.lt(demands.min_face_size)
        },
        is_good(face, ratio, score, demands) <==> {
            &&& !face.confidence.lt(demands.min_confidence)
            &&& !ratio.lt(demands.min_face_ratio)
            &&& !face.width.lt(demands.min_face_size)
            &&& !face.height.lt(demands.min_face_size)
            &&& match score {
                Some(measured) => !measured.lt(demands.min_blur_score),
                None => !(Single { bits: 0 }).lt(demands.min_blur_score),
            }
        },
{
}

/// Where a face lies and where its facial points are does not count for how good it is.
pub proof fn law_points_do_not_count(
    one: FaceBox,
    other: FaceBox,
    ratio: Single,
    score: Option<Single>,
    demands: Demands,
)
    requires
        one.confidence == other.confidence,
        one.width == other.width,
        one.height == other.height,
    ensures
        is_prominent(one, ratio, demands) == is_prominent(other, ratio, demands),
        is_good(one, ratio, score, demands) == is_good(other, ratio, score, demands),
{
}

/// Of two faces whose measures are numbers, the one that is no less sure, no smaller and no less
/// sharp is good if the other one is.
pub proof fn law_better_face_is_good(
    face: FaceBox,
    ratio: Single,
    score: Single,
    better: FaceBox,
    better_ratio: Single,
    better_score: Single,
    demands: Demands,
)
    requires
        is_good(face, ratio, Some(score), demands),
        face.confidence.le(better.confidence),
        face.width.le(better.width),
        face.height.le(better.height),
        ratio.le(better_ratio),
        score.le(better_score),
    ensures
        is_good(better, better_ratio, Some(better_score), demands),
{
}

/// A face is among those kept exactly if none of its measures is below what is asked, whatever the
/// other faces are.
pub proof fn law_face_kept_on_its_merits(
    faces: Seq<FaceBox>,
    ratios: Seq<Single>,
    scores: Seq<Option<Single>>,
    demands: Demands,
    i: int,
)
    requires
        0 <= i < faces.len(),
    ensures
        good_places(faces, ratios, scores, demands).contains(i) <==> {
            &&& !faces[i].confidence.lt(demands.min_confidence)
            &&& !ratios[i].lt(demands.min_face_ratio)
            &&& !faces[i].width.lt(demands.min_face_size)
            &&& !faces[i].height.lt(demands.min_face_size)
            &&& match scores[i] {
                Some(measured) => !measured.lt(demands.min_blur_score),
                None => !(Single { bits: 0 }).lt(demands.min_blur_score),
            }
        },
        good_places(faces, ratios, scores, demands).contains(i) ==> good_faces(
            faces,
            ratios,
            scores,
            demands,
        ).contains(faces[i]),
{
    let wanted = |k: int| is_good(faces[k], ratios[k], scores[k], demands);
    law_selection_exact(wanted, faces.len() as int);
    assert(wanted(i) <==> good_places(faces, ratios, scores, demands).contains(i));
    let places = good_places(faces, ratios, scores, demands);
    if places.contains(i) {
        let c = choose|c: int| 0 <= c < places.len() && places[c] == i;
        assert(good_faces(faces, ratios, scores, demands)[c] == faces[i]);
    }
}

} // verus!
