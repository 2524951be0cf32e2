const MAX_CANONICAL_RATING: f32 = 5.0;

fn canonical_rating_distribution_density(ratings: impl IntoIterator<Item = f32>) -> Vec<f32> {
    const SAMPLE_STEP: f32 = 0.01;
    const BANDWIDTH: f32 = 0.10;

    let normalization = 1.0 / (BANDWIDTH * (2.0 * std::f32::consts::PI).sqrt());
    let ratings = ratings.into_iter().collect::<Vec<_>>();
    let samples = (MAX_CANONICAL_RATING / SAMPLE_STEP).round() as usize;

    if ratings.is_empty() {
        return vec![0.0; samples + 1];
    }

    (0..=samples)
        .map(|index| {
            let center = index as f32 * SAMPLE_STEP;
            ratings
                .iter()
                .map(|rating| {
                    let standardized = (center - *rating) / BANDWIDTH;
                    (-0.5 * standardized.powi(2)).exp() * normalization
                })
                .sum::<f32>()
                / ratings.len() as f32
        })
        .collect()
}

#[test]
fn canonical_distribution_density_peaks_near_the_rating() {
    let density = canonical_rating_distribution_density([2.0]);

    assert!(density[200] > density[180]);
    assert!(density[200] > density[220]);
    assert!((density[180] - density[220]).abs() < 0.0001);
}

#[test]
fn canonical_distribution_density_shows_two_clusters_with_a_valley_between() {
    let density = canonical_rating_distribution_density([1.0, 1.0, 4.0, 4.0]);

    assert!(density[100] > density[250]);
    assert!(density[400] > density[250]);
    assert!((density[100] - density[400]).abs() < 0.0001);
}
