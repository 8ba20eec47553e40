//! End-to-end runs on floating-point rays: the numerical kernels live in
//! this file, every loop and every decision is the library's.

use nalgebra::{DMatrix, DVector, Matrix3, Point3, Vector3};
use opti_radar::consensus::{self, DEFAULT_RANSAC_ITERATIONS};
use opti_radar::indices::select;
use opti_radar::refiner::{self, Damping, Refinement, StepOutcome, Trial, DEFAULT_REFINER_MAX_ITERS};
use opti_radar::target_processor::{self, LocatedTarget, Phase, StopReason, TargetSearch};
use rand::rngs::StdRng;
use rand::{Rng, SeedableRng};
use std::f64::consts::PI;

struct Measurement {
    x: f64,
    y: f64,
    z: f64,
    direction_x: f64,
    direction_y: f64,
    direction_z: f64,
}

#[derive(Clone, Copy)]
struct Line {
    start: Point3<f64>,
    direction: Vector3<f64>,
}

type Located = LocatedTarget<Point3<f64>, f64>;

fn get_line(m: &Measurement) -> Line {
    let start_point = Point3::new(m.x, m.y, m.z);
    let direction = Vector3::new(m.direction_x, m.direction_y, m.direction_z).normalize();
    Line { start: start_point, direction }
}

fn find_closest_midpoint(line1: &Line, line2: &Line) -> Point3<f64> {
    let w0 = line1.start - line2.start;
    let a = line1.direction.dot(&line1.direction);
    let b = line1.direction.dot(&line2.direction);
    let c = line2.direction.dot(&line2.direction);
    let d = line1.direction.dot(&w0);
    let e = line2.direction.dot(&w0);
    let denom = a * c - b * b;
    if denom.abs() < 1e-6 {
        return Point3::from((line1.start.coords + line2.start.coords) * 0.5);
    }
    let s = (b * e - c * d) / denom;
    let t = (a * e - b * d) / denom;
    let closest_point1 = line1.start + line1.direction * s;
    let closest_point2 = line2.start + line2.direction * t;
    Point3::from((closest_point1.coords + closest_point2.coords) * 0.5)
}

fn residual(q: &Point3<f64>, line: &Line) -> Vector3<f64> {
    let pa = q - line.start;
    let proj = pa.dot(&line.direction);
    pa - line.direction * proj
}

fn sum_of_squares(q: &Point3<f64>, lines: &[Line]) -> f64 {
    let mut total = 0.0;
    for line in lines.iter() {
        total += residual(q, line).norm_squared();
    }
    total
}

fn trial_step(lines: &[Line], q: &Point3<f64>, lambda: f64) -> Trial<Point3<f64>> {
    let n = lines.len();
    let mut j = DMatrix::zeros(3 * n, 3);
    let mut e = DVector::zeros(3 * n);
    for (i, line) in lines.iter().enumerate() {
        let distance_vec = residual(q, line);
        e.rows_mut(3 * i, 3).copy_from(&DVector::from_column_slice(distance_vec.as_slice()));
        let jac_block = Matrix3::identity() - line.direction * line.direction.transpose();
        j.view_mut((3 * i, 0), (3, 3)).copy_from(&jac_block);
    }
    let j_t = j.transpose();
    let h_approx = &j_t * &j;
    let b = &j_t * &e;
    let h_lm = h_approx + Matrix3::identity() * lambda;
    match h_lm.try_inverse() {
        Some(inv_h) => {
            let delta = inv_h * -b;
            let delta_vec = Vector3::new(delta[0], delta[1], delta[2]);
            let new_pos = q + delta_vec;
            let new_error_sq = sum_of_squares(&new_pos, lines);
            let current_error_sq: f64 = e.norm_squared();
            Trial::Step { position: new_pos, decreases: new_error_sq < current_error_sq }
        }
        None => Trial::Singular,
    }
}

fn scale_damping(lambda: &f64, damping: Damping) -> f64 {
    match damping {
        Damping::Raise => *lambda * 10.0,
        Damping::Lower => *lambda * 0.1,
    }
}

fn levenberg_marquardt_optimize(
    lines: &[Line],
    initial_guess: Point3<f64>,
    iterations: usize,
    initial_lambda: f64,
) -> Point3<f64> {
    let solve = |q: &Point3<f64>, lambda: &f64| trial_step(lines, q, *lambda);
    refiner::levenberg_marquardt_optimize(
        initial_guess,
        iterations,
        initial_lambda,
        &solve,
        &scale_damping,
    )
}

fn seed_position(first: &Line, second: &Line, third: &Line) -> Point3<f64> {
    let initial_guess = (find_closest_midpoint(first, second).coords
        + find_closest_midpoint(first, third).coords
        + find_closest_midpoint(second, third).coords)
        / 3.0;
    Point3::from(initial_guess)
}

fn ransac_fit_lines_with(
    all_lines: &[Line],
    ransac_iterations: usize,
    ransac_threshold: f64,
    min_lines: usize,
    rng: &mut StdRng,
) -> Option<(Point3<f64>, Vec<usize>)> {
    let pool: Vec<usize> = (0..all_lines.len()).collect();
    let seed_of =
        |i: usize, j: usize, k: usize| seed_position(&all_lines[i], &all_lines[j], &all_lines[k]);
    let is_inlier = |seed: &Point3<f64>, i: usize| {
        residual(seed, &all_lines[i]).norm() < ransac_threshold
    };
    consensus::ransac_fit_lines(&pool, ransac_iterations, min_lines, rng, &seed_of, &is_inlier)
}

fn ransac_fit_lines(
    all_lines: &[Line],
    ransac_iterations: usize,
    ransac_threshold: f64,
    min_lines: usize,
) -> Option<(Point3<f64>, Vec<usize>)> {
    let mut rng = StdRng::seed_from_u64(0x5eed);
    ransac_fit_lines_with(all_lines, ransac_iterations, ransac_threshold, min_lines, &mut rng)
}

fn find_targets(
    data: &[Measurement],
    ransac_threshold_m: f64,
    min_lines_per_target: usize,
    rng: &mut StdRng,
) -> Vec<Located> {
    let all_lines: Vec<Line> = data.iter().map(get_line).collect();
    let seed_of =
        |i: usize, j: usize, k: usize| seed_position(&all_lines[i], &all_lines[j], &all_lines[k]);
    let is_inlier = |seed: &Point3<f64>, i: usize| {
        residual(seed, &all_lines[i]).norm() < ransac_threshold_m
    };
    let refine = |lines: &Vec<usize>, seed: &Point3<f64>| {
        levenberg_marquardt_optimize(
            &select(&all_lines, lines),
            *seed,
            DEFAULT_REFINER_MAX_ITERS,
            0.001,
        )
    };
    let avg_error = |lines: &Vec<usize>, position: &Point3<f64>| {
        let target_lines = select(&all_lines, lines);
        (sum_of_squares(position, &target_lines) / target_lines.len() as f64).sqrt()
    };
    target_processor::find_targets(
        all_lines.len(),
        DEFAULT_RANSAC_ITERATIONS,
        min_lines_per_target,
        rng,
        &seed_of,
        &is_inlier,
        &refine,
        &avg_error,
    )
}

/// The same search, run phase by phase by the caller.
fn find_targets_by_phase(
    data: &[Measurement],
    ransac_threshold_m: f64,
    min_lines_per_target: usize,
    rng: &mut StdRng,
) -> (Vec<Located>, Option<StopReason>) {
    let all_lines: Vec<Line> = data.iter().map(get_line).collect();
    let mut search: TargetSearch<Point3<f64>, f64> =
        TargetSearch::new(all_lines.len(), min_lines_per_target);
    loop {
        match search.current_phase() {
            Phase::SelectRemaining => {
                search.select_remaining();
            }
            Phase::Propose => {
                let remaining: Vec<Line> = select(&all_lines, search.remaining_rays());
                let mut fit = search.begin_consensus(DEFAULT_RANSAC_ITERATIONS);
                assert_eq!(fit.pool_size(), remaining.len());
                while let Some((i, j, k)) = fit.next_sample(rng) {
                    let seed = seed_position(&remaining[i], &remaining[j], &remaining[k]);
                    let flags: Vec<bool> = remaining
                        .iter()
                        .map(|line| residual(&seed, line).norm() < ransac_threshold_m)
                        .collect();
                    fit.record(seed, &flags);
                }
                search.propose(fit);
            }
            Phase::Refine => {
                let target_lines: Vec<Line> = select(&all_lines, search.proposed_lines());
                let refined = levenberg_marquardt_optimize(
                    &target_lines,
                    *search.proposed_seed(),
                    DEFAULT_REFINER_MAX_ITERS,
                    0.001,
                );
                search.refined(refined);
            }
            Phase::Commit => {
                let target_lines: Vec<Line> = select(&all_lines, search.proposed_lines());
                let total_error_sq = sum_of_squares(search.refined_at(), &target_lines);
                search.commit((total_error_sq / target_lines.len() as f64).sqrt());
            }
            Phase::Done => break,
        }
    }
    let reason = search.stop_reason();
    (search.into_targets(), reason)
}

fn generate_data(
    rng: &mut StdRng,
    num_targets: usize,
    target_x_range: (f64, f64),
    target_y_range: (f64, f64),
    target_z_range: (f64, f64),
    num_stations_per_target_range: (usize, usize),
    station_dist_range: (f64, f64),
    station_z_range: (f64, f64),
    pos_noise_std: f64,
    alt_noise_std: f64,
    angle_noise_std: f64,
) -> (Vec<Point3<f64>>, Vec<Measurement>) {
    let mut all_data = Vec::new();
    let mut true_targets = Vec::new();

    for _ in 0..num_targets {
        let true_target_pos = Point3::new(
            rng.gen_range(target_x_range.0..target_x_range.1),
            rng.gen_range(target_y_range.0..target_y_range.1),
            rng.gen_range(target_z_range.0..target_z_range.1),
        );
        true_targets.push(true_target_pos);

        let num_stations =
            rng.gen_range(num_stations_per_target_range.0..=num_stations_per_target_range.1);
        for _ in 0..num_stations {
            let angle = rng.gen_range(0.0..2.0 * PI);
            let dist = rng.gen_range(station_dist_range.0..station_dist_range.1);
            let true_station_pos = Point3::new(
                true_target_pos.x + dist * angle.cos(),
                true_target_pos.y + dist * angle.sin(),
                rng.gen_range(station_z_range.0..station_z_range.1),
            );

            let true_direction = (true_target_pos - true_station_pos).normalize();

            let measured_station_pos = Point3::new(
                true_station_pos.x + rng.gen_range(-pos_noise_std..pos_noise_std),
                true_station_pos.y + rng.gen_range(-pos_noise_std..pos_noise_std),
                true_station_pos.z + rng.gen_range(-alt_noise_std..alt_noise_std),
            );

            let measured_direction = Vector3::new(
                true_direction.x + rng.gen_range(-angle_noise_std..angle_noise_std),
                true_direction.y + rng.gen_range(-angle_noise_std..angle_noise_std),
                true_direction.z + rng.gen_range(-angle_noise_std..angle_noise_std),
            )
            .normalize();

            all_data.push(Measurement {
                x: measured_station_pos.x,
                y: measured_station_pos.y,
                z: measured_station_pos.z,
                direction_x: measured_direction.x,
                direction_y: measured_direction.y,
                direction_z: measured_direction.z,
            });
        }
    }
    (true_targets, all_data)
}

/// Measurements of rays that all pass through `target`, from stations on a
/// circle around it.
fn rays_through(target: Point3<f64>, stations: usize, radius: f64) -> Vec<Measurement> {
    (0..stations)
        .map(|s| {
            let angle = 2.0 * PI * (s as f64) / (stations as f64) + 0.3;
            let station = Point3::new(
                target.x + radius * angle.cos(),
                target.y + radius * angle.sin(),
                target.z - 40.0 - 3.0 * (s as f64),
            );
            let direction = target - station;
            Measurement {
                x: station.x,
                y: station.y,
                z: station.z,
                direction_x: direction.x,
                direction_y: direction.y,
                direction_z: direction.z,
            }
        })
        .collect()
}

fn run_test_case(
    rng: &mut StdRng,
    case_name: &str,
    num_runs: usize,
    num_targets: usize,
    target_x_range: (f64, f64),
    target_y_range: (f64, f64),
    target_z_range: (f64, f64),
    num_stations_per_target_range: (usize, usize),
    station_dist_range: (f64, f64),
    station_z_range: (f64, f64),
    pos_noise_std: f64,
    alt_noise_std: f64,
    angle_noise_std: f64,
    ransac_threshold: f64,
) -> (f64, usize, usize) {
    let mut total_overall_error_sum = 0.0;
    let mut successful_runs_count = 0;
    let mut total_matched_targets_count = 0;

    println!("\n--- 正在进行 '{}' 测试 ({} 次运行) ---", case_name, num_runs);

    for run_count in 1..=num_runs {
        let (true_targets, all_data) = generate_data(
            rng,
            num_targets,
            target_x_range,
            target_y_range,
            target_z_range,
            num_stations_per_target_range,
            station_dist_range,
            station_z_range,
            pos_noise_std,
            alt_noise_std,
            angle_noise_std,
        );
        let located_targets = find_targets(&all_data, ransac_threshold, 3, rng);
        let _located_num_targets = located_targets.len();

        let mut run_error_sum = 0.0;
        let mut matched_targets_count = 0;
        let mut located_targets_indices_used = vec![false; located_targets.len()];

        for true_target in &true_targets {
            let mut min_dist_sq = f64::MAX;
            let mut best_match_idx = None;

            for (i, located_target) in located_targets.iter().enumerate() {
                if located_targets_indices_used[i] {
                    continue;
                }
                let diff_vec = located_target.position - true_target;
                let dist_sq = diff_vec.norm_squared();
                if dist_sq < min_dist_sq {
                    min_dist_sq = dist_sq;
                    best_match_idx = Some(i);
                }
            }

            if let Some(idx) = best_match_idx {
                let error_dist = min_dist_sq.sqrt();
                run_error_sum += error_dist;
                matched_targets_count += 1;
                located_targets_indices_used[idx] = true;
            }
        }

        if matched_targets_count > 0 {
            let avg_run_error = run_error_sum / matched_targets_count as f64;
            total_overall_error_sum += avg_run_error;
            successful_runs_count += 1;
            total_matched_targets_count += matched_targets_count;
            println!(
                "第{}次运行：成功匹配 {}/{} 个目标，平均误差: {:.2} 米",
                run_count, matched_targets_count, num_targets, avg_run_error
            );
        } else {
            println!("第{}次运行：未成功匹配任何目标，本次运行被忽略。", run_count);
        }
    }

    let overall_avg_error = if successful_runs_count > 0 {
        total_overall_error_sum / successful_runs_count as f64
    } else {
        f64::INFINITY
    };

    println!(
        "\n'{}' 测试完成: {} 次成功运行的整体平均误差: {:.2} 米",
        case_name, successful_runs_count, overall_avg_error
    );
    (overall_avg_error, successful_runs_count, total_matched_targets_count)
}

#[test]
fn test_ransac_fit_lines() {
    let mut rng = StdRng::seed_from_u64(1);
    let mut lines = Vec::new();
    for _ in 0..10 {
        let start = Point3::new(
            rng.gen_range(0.0..5.0),
            rng.gen_range(15.0..25.0),
            rng.gen_range(25.0..35.0),
        );
        let direction = (Point3::new(10.0, 20.0, 30.0) - start).normalize();
        lines.push(Line { start, direction });
    }
    for _ in 0..5 {
        let start = Point3::new(
            rng.gen_range(-50.0..50.0),
            rng.gen_range(-50.0..50.0),
            rng.gen_range(-50.0..50.0),
        );
        let direction = Vector3::new(rng.gen(), rng.gen(), rng.gen()).normalize();
        lines.push(Line { start, direction });
    }

    let result = ransac_fit_lines(&lines, 100, 1.0, 3);
    assert!(result.is_some());

    if let Some((initial_guess, inliers_indices)) = result {
        assert!(inliers_indices.len() >= 8);
        let epsilon = 1e-1;
        assert!((initial_guess.x - 10.0).abs() < epsilon);
        assert!((initial_guess.y - 20.0).abs() < epsilon);
        assert!((initial_guess.z - 30.0).abs() < epsilon);
    }
}

#[test]
fn test_levenberg_marquardt_with_perfect_data() {
    let line1 = Line {
        start: Point3::new(-10.0, 0.0, 10.0),
        direction: Vector3::new(1.0, 0.0, 0.0),
    };
    let line2 = Line {
        start: Point3::new(0.0, -10.0, 10.0),
        direction: Vector3::new(0.0, 1.0, 0.0),
    };
    let lines = vec![line1, line2];

    let initial_guess = Point3::new(100.0, 100.0, 100.0);
    let initial_lambda = 0.01;
    let iterations = 200;

    let final_pos = levenberg_marquardt_optimize(&lines, initial_guess, iterations, initial_lambda);
    let epsilon = 1e-6;

    assert!((final_pos.x - 0.0).abs() < epsilon);
    assert!((final_pos.y - 0.0).abs() < epsilon);
    assert!((final_pos.z - 10.0).abs() < epsilon);
}

#[test]
fn accuracy_test_localization_accuracy() {
    let mut rng = StdRng::seed_from_u64(101);
    let mut attempts = 0;
    loop {
        attempts += 1;
        let (overall_avg_error, successful_runs, total_matched_targets) = run_test_case(
            &mut rng,
            "一般精度",
            10,
            3,
            (-2000.0, 2000.0),
            (-2000.0, 2000.0),
            (50.0, 200.0),
            (3, 5),
            (500.0, 2000.0),
            (30.0, 70.0),
            5.0,
            2.0,
            0.005,
            20.0,
        );
        let total_possible_targets = 10 * 3;
        let success_rate = total_matched_targets as f64 / total_possible_targets as f64;

        if overall_avg_error < 20.0 && success_rate >= 0.8 {
            println!("第 {} 次尝试成功通过。", attempts);
            println!("总匹配目标数: {} / {}", total_matched_targets, total_possible_targets);
            break;
        } else {
            if attempts >= 3 {
                panic!("{} 次成功运行的整体平均误差 {:.2} 米超过了可接受的阈值 (20.0 米) or low success rate after {} attempts. Total matched targets: {} / {}.",
                        successful_runs, overall_avg_error, attempts, total_matched_targets, total_possible_targets);
            }
            println!("第 {} 次尝试失败，正在重试...", attempts);
        }
    }
}

#[test]
fn test_localization_with_high_noise() {
    let mut rng = StdRng::seed_from_u64(102);
    let mut attempts = 0;
    loop {
        attempts += 1;
        let (overall_avg_error, successful_runs, total_matched_targets) = run_test_case(
            &mut rng,
            "高噪声",
            5,
            2,
            (-500.0, 500.0),
            (-500.0, 500.0),
            (20.0, 100.0),
            (10, 20),
            (100.0, 500.0),
            (10.0, 30.0),
            10.0,
            5.0,
            0.02,
            50.0,
        );
        let total_possible_targets = 5 * 2;
        let success_rate = total_matched_targets as f64 / total_possible_targets as f64;

        if overall_avg_error < 100.0 && successful_runs as f64 / 5.0 > 0.6 && success_rate >= 0.7 {
            println!("第 {} 次尝试成功通过。", attempts);
            println!("总匹配目标数: {} / {}", total_matched_targets, total_possible_targets);
            break;
        } else {
            if attempts >= 3 {
                panic!("{} 次成功运行的整体平均误差 {:.2} 米超过了可接受的阈值 (100.0 米) or low success rate after {} attempts. Total matched targets: {} / {}.",
                        successful_runs, overall_avg_error, attempts, total_matched_targets, total_possible_targets);
            }
            println!("第 {} 次尝试失败，正在重试...", attempts);
        }
    }
}

#[test]
fn test_localization_with_sparse_data() {
    let mut rng = StdRng::seed_from_u64(103);
    let mut attempts = 0;
    loop {
        attempts += 1;
        let (overall_avg_error, successful_runs, total_matched_targets) = run_test_case(
            &mut rng,
            "稀疏数据",
            5,
            3,
            (-200.0, 200.0),
            (-200.0, 200.0),
            (10.0, 50.0),
            (2, 3),
            (50.0, 200.0),
            (5.0, 15.0),
            1.0,
            0.5,
            0.002,
            10.0,
        );
        let total_possible_targets = 5 * 3;
        let success_rate = total_matched_targets as f64 / total_possible_targets as f64;

        if overall_avg_error < 150.0 && successful_runs >= 3 && success_rate >= 0.6 {
            println!("第 {} 次尝试成功通过。", attempts);
            println!("总匹配目标数: {} / {}", total_matched_targets, total_possible_targets);
            break;
        } else {
            if attempts >= 3 {
                panic!("{} 次成功运行的整体平均误差 {:.2} 米超过了可接受的阈值 (150.0 米) or low success count after {} attempts. Total matched targets: {} / {}.",
                        successful_runs, overall_avg_error, attempts, total_matched_targets, total_possible_targets);
            }
            println!("第 {} 次尝试失败，正在重试...", attempts);
        }
    }
}

#[test]
fn test_localization_with_overlapping_targets() {
    let mut rng = StdRng::seed_from_u64(104);
    let mut attempts = 0;
    loop {
        attempts += 1;
        let (overall_avg_error, successful_runs, total_matched_targets) = run_test_case(
            &mut rng,
            "重叠目标",
            5,
            3,
            (-10.0, 10.0),
            (-10.0, 10.0),
            (10.0, 30.0),
            (3, 5),
            (50.0, 200.0),
            (5.0, 15.0),
            0.5,
            0.5,
            0.001,
            5.0,
        );
        let total_possible_targets = 5 * 3;
        let success_rate = total_matched_targets as f64 / total_possible_targets as f64;

        if overall_avg_error < 100.0 && successful_runs >= 2 && success_rate >= 0.5 {
            println!("第 {} 次尝试成功通过。", attempts);
            println!("总匹配目标数: {} / {}", total_matched_targets, total_possible_targets);
            break;
        } else {
            if attempts >= 3 {
                panic!("{} 次成功运行的整体平均误差 {:.2} 米超过了可接受的阈值 (100.0 米) or low success count after {} attempts. Total matched targets: {} / {}.",
                        successful_runs, overall_avg_error, attempts, total_matched_targets, total_possible_targets);
            }
            println!("第 {} 次尝试失败，正在重试...", attempts);
        }
    }
}

#[test]
fn intergration_test_test_localization_accuracy() {
    let mut rng = StdRng::seed_from_u64(105);
    let mut total_overall_error_sum = 0.0;
    let mut successful_runs_count = 0;
    let num_runs = 10;
    let true_num_targets = 3;

    println!("\n--- 正在进行 {} 次集成测试以验证定位精度 ---", num_runs);

    for run_count in 1..=num_runs {
        let (true_targets, all_data) = generate_data(
            &mut rng,
            true_num_targets,
            (-2000.0, 2000.0),
            (-2000.0, 2000.0),
            (50.0, 200.0),
            (3, 5),
            (500.0, 2000.0),
            (30.0, 70.0),
            5.0,
            2.0,
            0.005,
        );

        let located_targets = find_targets(&all_data, 20.0, 3, &mut rng);

        let located_num_targets = located_targets.len();
        let num_diff = (true_num_targets as isize - located_num_targets as isize).abs();

        if num_diff > 1 {
            println!("第{}次运行：目标数量严重不匹配，真实：{}，定位：{}，本次运行被忽略。", run_count, true_num_targets, located_num_targets);
            continue;
        }

        let mut run_error_sum = 0.0;
        let mut matched_targets_count = 0;
        let mut located_targets_indices_used = vec![false; located_targets.len()];

        for true_target in &true_targets {
            let mut min_dist_sq = f64::MAX;
            let mut best_match_idx = None;

            for (i, located_target) in located_targets.iter().enumerate() {
                if located_targets_indices_used[i] {
                    continue;
                }

                let diff_vec = Vector3::new(
                    located_target.position.x - true_target.x,
                    located_target.position.y - true_target.y,
                    located_target.position.z - true_target.z,
                );
                let dist_sq = diff_vec.norm_squared();
                if dist_sq < min_dist_sq {
                    min_dist_sq = dist_sq;
                    best_match_idx = Some(i);
                }
            }

            if let Some(idx) = best_match_idx {
                let error_dist = min_dist_sq.sqrt();
                run_error_sum += error_dist;
                matched_targets_count += 1;
                located_targets_indices_used[idx] = true;
            }
        }

        if matched_targets_count > 0 {
            let avg_run_error = run_error_sum / matched_targets_count as f64;
            println!("第{}次运行：成功匹配 {}/{} 个目标，平均误差: {:.2} 米", run_count, matched_targets_count, true_num_targets, avg_run_error);
            total_overall_error_sum += avg_run_error;
            successful_runs_count += 1;
        } else {
            println!("第{}次运行：未成功匹配任何目标，本次运行被忽略。", run_count);
        }
    }

    if successful_runs_count == 0 {
        panic!("在 {} 次运行中未能成功匹配任何目标，测试失败。", num_runs);
    }

    let overall_avg_error = total_overall_error_sum / successful_runs_count as f64;
    println!("\n{} 次成功运行的整体平均误差: {:.2} 米", successful_runs_count, overall_avg_error);

    assert!(overall_avg_error < 100.0, "{} 次成功运行的整体平均误差 {:.2} 米超过了可接受的阈值 (100.0 米)", successful_runs_count, overall_avg_error);
}

#[test]
fn rays_through_one_point_give_one_target_there() {
    let target = Point3::new(120.0, -45.0, 80.0);
    let data = rays_through(target, 6, 300.0);
    let mut rng = StdRng::seed_from_u64(9);
    let (found, reason) = find_targets_by_phase(&data, 1e-3, 3, &mut rng);
    assert_eq!(found.len(), 1);
    assert_eq!(found[0].id, "Target_1");
    assert_eq!(found[0].num_lines, 6);
    assert_eq!(found[0].lines, vec![0, 1, 2, 3, 4, 5]);
    assert!((found[0].position - target).norm() < 1e-6);
    assert!(found[0].avg_error_dist_m < 1e-6);
    assert_eq!(reason, Some(StopReason::InsufficientRays));
}

#[test]
fn two_clean_targets_are_told_apart() {
    let first = Point3::new(100.0, 200.0, 90.0);
    let second = Point3::new(-400.0, 50.0, 120.0);
    let mut data = rays_through(first, 4, 250.0);
    data.extend(rays_through(second, 5, 350.0));
    let mut rng = StdRng::seed_from_u64(10);
    let found = find_targets(&data, 1e-3, 3, &mut rng);
    assert_eq!(found.len(), 2);
    assert_eq!(found[0].id, "Target_1");
    assert_eq!(found[1].id, "Target_2");
    let (at_first, at_second) = if (found[0].position - first).norm() < 1e-6 {
        (&found[0], &found[1])
    } else {
        (&found[1], &found[0])
    };
    assert!((at_first.position - first).norm() < 1e-6);
    assert!((at_second.position - second).norm() < 1e-6);
    assert_eq!(at_first.lines, vec![0, 1, 2, 3]);
    assert_eq!(at_second.lines, vec![4, 5, 6, 7, 8]);
}

#[test]
fn reported_error_is_the_root_mean_square_over_the_reported_rays() {
    let mut rng = StdRng::seed_from_u64(21);
    let (_, data) = generate_data(
        &mut rng,
        3,
        (-2000.0, 2000.0),
        (-2000.0, 2000.0),
        (50.0, 200.0),
        (3, 5),
        (500.0, 2000.0),
        (30.0, 70.0),
        5.0,
        2.0,
        0.005,
    );
    let found = find_targets(&data, 20.0, 3, &mut rng);
    assert!(!found.is_empty());
    for target in &found {
        let all_lines: Vec<Line> = data.iter().map(get_line).collect();
        let lines: Vec<Line> = select(&all_lines, &target.lines);
        let n = lines.len() as f64;
        let rms = (sum_of_squares(&target.position, &lines) / n).sqrt();
        assert!((rms - target.avg_error_dist_m).abs() < 1e-9);
        assert!(target.avg_error_dist_m >= 0.0);
        assert_eq!(target.num_lines, lines.len());
    }
}

#[test]
fn noise_yields_no_target_beyond_the_threshold() {
    let threshold = 5.0;
    for seed in 0..20u64 {
        let mut rng = StdRng::seed_from_u64(seed);
        let data: Vec<Measurement> = (0..30)
            .map(|_| Measurement {
                x: rng.gen_range(-500.0..500.0),
                y: rng.gen_range(-500.0..500.0),
                z: rng.gen_range(-500.0..500.0),
                direction_x: rng.gen_range(-1.0..1.0),
                direction_y: rng.gen_range(-1.0..1.0),
                direction_z: rng.gen_range(0.1..1.0),
            })
            .collect();
        let found = find_targets(&data, threshold, 3, &mut rng);
        assert!(found.len() <= data.len() / 3);
        for target in &found {
            assert!(target.num_lines >= 3);
            assert!(target.avg_error_dist_m <= threshold * 3.0f64.sqrt());
        }
    }
}

#[test]
fn equal_seeds_give_identical_results() {
    let mut data_rng = StdRng::seed_from_u64(33);
    let (_, data) = generate_data(
        &mut data_rng,
        3,
        (-2000.0, 2000.0),
        (-2000.0, 2000.0),
        (50.0, 200.0),
        (3, 5),
        (500.0, 2000.0),
        (30.0, 70.0),
        5.0,
        2.0,
        0.005,
    );
    let first = find_targets(&data, 20.0, 3, &mut StdRng::seed_from_u64(77));
    let second = find_targets(&data, 20.0, 3, &mut StdRng::seed_from_u64(77));
    assert_eq!(first.len(), second.len());
    for (a, b) in first.iter().zip(second.iter()) {
        assert_eq!(a.id, b.id);
        assert_eq!(a.lines, b.lines);
        assert_eq!(a.num_lines, b.num_lines);
        assert_eq!(a.position.x.to_bits(), b.position.x.to_bits());
        assert_eq!(a.position.y.to_bits(), b.position.y.to_bits());
        assert_eq!(a.position.z.to_bits(), b.position.z.to_bits());
        assert_eq!(a.avg_error_dist_m.to_bits(), b.avg_error_dist_m.to_bits());
    }
}

#[test]
fn reordered_measurements_give_the_same_positions() {
    let first = Point3::new(100.0, 200.0, 90.0);
    let second = Point3::new(-400.0, 50.0, 120.0);
    let mut data = rays_through(first, 4, 250.0);
    data.extend(rays_through(second, 4, 350.0));
    let forward = find_targets(&data, 1e-3, 3, &mut StdRng::seed_from_u64(5));
    data.reverse();
    let backward = find_targets(&data, 1e-3, 3, &mut StdRng::seed_from_u64(5));
    assert_eq!(forward.len(), 2);
    assert_eq!(backward.len(), 2);
    for target in &forward {
        assert!(backward.iter().any(|other| (other.position - target.position).norm() < 1e-3));
    }
}

#[test]
fn too_few_measurements_give_no_target() {
    let target = Point3::new(0.0, 0.0, 10.0);
    let data = rays_through(target, 2, 10.0);
    let mut rng = StdRng::seed_from_u64(1);
    let (found, reason) = find_targets_by_phase(&data, 1e-3, 3, &mut rng);
    assert!(found.is_empty());
    assert_eq!(reason, Some(StopReason::InsufficientRays));
    let (found, reason) = find_targets_by_phase(&[], 1e-3, 3, &mut rng);
    assert!(found.is_empty());
    assert_eq!(reason, Some(StopReason::InsufficientRays));
}

#[test]
fn two_rays_meet_the_minimum_but_cannot_be_sampled() {
    let data = vec![
        Measurement { x: -10.0, y: 0.0, z: 10.0, direction_x: 1.0, direction_y: 0.0, direction_z: 0.0 },
        Measurement { x: 0.0, y: -10.0, z: 10.0, direction_x: 0.0, direction_y: 1.0, direction_z: 0.0 },
    ];
    let mut rng = StdRng::seed_from_u64(1);
    let (found, reason) = find_targets_by_phase(&data, 1e-3, 2, &mut rng);
    assert!(found.is_empty());
    assert_eq!(reason, Some(StopReason::NoConsensus));
}

#[test]
fn the_search_is_the_same_run_whole_or_phase_by_phase() {
    let mut data_rng = StdRng::seed_from_u64(44);
    for _ in 0..5 {
        let (_, data) = generate_data(
            &mut data_rng,
            3,
            (-2000.0, 2000.0),
            (-2000.0, 2000.0),
            (50.0, 200.0),
            (3, 5),
            (500.0, 2000.0),
            (30.0, 70.0),
            5.0,
            2.0,
            0.005,
        );
        let whole = find_targets(&data, 20.0, 3, &mut StdRng::seed_from_u64(8));
        let (stepped, reason) = find_targets_by_phase(&data, 20.0, 3, &mut StdRng::seed_from_u64(8));
        assert!(reason.is_some());
        assert_eq!(whole.len(), stepped.len());
        for (a, b) in whole.iter().zip(stepped.iter()) {
            assert_eq!(a.id, b.id);
            assert_eq!(a.lines, b.lines);
            assert_eq!(a.num_lines, b.num_lines);
            assert_eq!(a.position.x.to_bits(), b.position.x.to_bits());
            assert_eq!(a.position.y.to_bits(), b.position.y.to_bits());
            assert_eq!(a.position.z.to_bits(), b.position.z.to_bits());
            assert_eq!(a.avg_error_dist_m.to_bits(), b.avg_error_dist_m.to_bits());
        }
    }
}

#[test]
fn a_refinement_by_hand_agrees_with_the_driver() {
    let lines = vec![
        Line { start: Point3::new(-10.0, 0.0, 10.0), direction: Vector3::new(1.0, 0.0, 0.0) },
        Line { start: Point3::new(0.0, -10.0, 10.0), direction: Vector3::new(0.0, 1.0, 0.0) },
        Line { start: Point3::new(3.0, 4.0, -20.0), direction: Vector3::new(0.0, 0.0, 1.0) },
    ];
    let initial_guess = Point3::new(50.0, -20.0, 35.0);
    let driven = levenberg_marquardt_optimize(&lines, initial_guess, 30, 0.001);

    let mut current = initial_guess;
    let mut lambda = 0.001;
    let mut control = Refinement::new(30);
    while control.has_budget() {
        let trial = trial_step(&lines, &current, lambda);
        let outcome = match &trial {
            Trial::Singular => StepOutcome::Singular,
            Trial::Step { decreases: true, .. } => StepOutcome::Decreased,
            Trial::Step { decreases: false, .. } => StepOutcome::NotDecreased,
        };
        let decision = control.advance(outcome);
        if decision.accept {
            if let Trial::Step { position, .. } = trial {
                current = position;
            }
        }
        lambda = scale_damping(&lambda, decision.damping);
    }
    assert_eq!(control.iterations_done(), 30);
    assert!(control.steps_accepted() >= 1);
    assert_eq!(driven.x.to_bits(), current.x.to_bits());
    assert_eq!(driven.y.to_bits(), current.y.to_bits());
    assert_eq!(driven.z.to_bits(), current.z.to_bits());
}
