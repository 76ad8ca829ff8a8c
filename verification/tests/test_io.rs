use arc2020::io::{
    deserialize_image, deserialize_task, deserialize_task_test, deserialize_task_train,
    serialize_all_tasks, serialize_image, serialize_images, ImageError, TaskJson, TaskTestJson,
    TaskTrainJson,
};
use arc2020::types::{Image, TaskSolution, TaskTestSolution};

fn image(rows: Vec<Vec<u8>>) -> Image {
    deserialize_image(&rows).unwrap()
}

fn text(bytes: Vec<u8>) -> String {
    String::from_utf8(bytes).unwrap()
}

#[test]
fn image_from_rows() {
    let img = image(vec![vec![1, 2, 3], vec![4, 5, 6]]);
    assert_eq!(img.nrows(), 2);
    assert_eq!(img.ncols(), 3);
    assert_eq!(img.get(0, 2), Some(3));
    assert_eq!(img.get(1, 0), Some(4));
}

#[test]
fn image_without_rows_is_refused() {
    assert_eq!(deserialize_image(&Vec::new()).err(), Some(ImageError::Empty));
}

#[test]
fn image_with_rows_of_two_lengths_is_refused() {
    let rows = vec![vec![1, 2], vec![3]];
    assert_eq!(deserialize_image(&rows).err(), Some(ImageError::Ragged));
    let rows = vec![vec![], vec![3]];
    assert_eq!(deserialize_image(&rows).err(), Some(ImageError::Ragged));
}

#[test]
fn image_with_rows_without_cells() {
    let img = image(vec![vec![], vec![]]);
    assert_eq!(img.nrows(), 2);
    assert_eq!(img.ncols(), 0);
}

#[test]
fn train_pair_reports_the_input_first() {
    let pair = TaskTrainJson { input: vec![], output: vec![vec![1], vec![]] };
    assert_eq!(deserialize_task_train(&pair).err(), Some(ImageError::Empty));
    let pair = TaskTrainJson { input: vec![vec![1]], output: vec![vec![1], vec![]] };
    assert_eq!(deserialize_task_train(&pair).err(), Some(ImageError::Ragged));
    let pair = TaskTrainJson { input: vec![vec![1]], output: vec![vec![2, 3]] };
    let made = deserialize_task_train(&pair).unwrap();
    assert_eq!(made.input.get(0, 0), Some(1));
    assert_eq!(made.output.get(0, 1), Some(3));
}

#[test]
fn test_case_may_hold_no_result() {
    let case = TaskTestJson { input: vec![vec![1]], output: None };
    let made = deserialize_task_test(&case).unwrap();
    assert_eq!(made.output.len(), 0);
    let case = TaskTestJson { input: vec![vec![1]], output: Some(vec![vec![2]]) };
    let made = deserialize_task_test(&case).unwrap();
    assert_eq!(made.output.len(), 1);
    assert_eq!(made.output[0].get(0, 0), Some(2));
    let case = TaskTestJson { input: vec![vec![1]], output: Some(vec![]) };
    assert_eq!(deserialize_task_test(&case).err(), Some(ImageError::Empty));
}

#[test]
fn task_reports_the_first_fault() {
    let task = TaskJson {
        train: vec![
            TaskTrainJson { input: vec![vec![1]], output: vec![vec![1]] },
            TaskTrainJson { input: vec![vec![1]], output: vec![vec![1], vec![]] },
        ],
        test: vec![TaskTestJson { input: vec![], output: None }],
    };
    assert_eq!(deserialize_task(&task).err(), Some(ImageError::Ragged));
    let task = TaskJson {
        train: vec![TaskTrainJson { input: vec![vec![1]], output: vec![vec![1]] }],
        test: vec![TaskTestJson { input: vec![], output: None }],
    };
    assert_eq!(deserialize_task(&task).err(), Some(ImageError::Empty));
}

#[test]
fn task_keeps_the_order() {
    let task = TaskJson {
        train: vec![
            TaskTrainJson { input: vec![vec![1]], output: vec![vec![2]] },
            TaskTrainJson { input: vec![vec![3]], output: vec![vec![4]] },
        ],
        test: vec![
            TaskTestJson { input: vec![vec![5]], output: None },
            TaskTestJson { input: vec![vec![6]], output: Some(vec![vec![7]]) },
        ],
    };
    let made = deserialize_task(&task).unwrap();
    assert_eq!(made.train.len(), 2);
    assert_eq!(made.train[1].input.get(0, 0), Some(3));
    assert_eq!(made.train[1].output.get(0, 0), Some(4));
    assert_eq!(made.test.len(), 2);
    assert_eq!(made.test[0].output.len(), 0);
    assert_eq!(made.test[1].input.get(0, 0), Some(6));
    assert_eq!(made.test[1].output[0].get(0, 0), Some(7));
}

#[test]
fn image_as_text() {
    let mut out = Vec::new();
    serialize_image(&mut out, &image(vec![vec![1, 2, 3], vec![4, 5, 6]]));
    assert_eq!(text(out), "|123|456|");
}

#[test]
fn image_as_text_is_appended() {
    let mut out = vec![b'x'];
    serialize_image(&mut out, &image(vec![vec![0]]));
    assert_eq!(text(out), "x|0|");
}

#[test]
fn image_without_cells_as_text() {
    let mut out = Vec::new();
    serialize_image(&mut out, &image(vec![vec![], vec![], vec![]]));
    assert_eq!(text(out), "||");
}

#[test]
fn color_codes_above_nine_as_text() {
    let mut out = Vec::new();
    serialize_image(&mut out, &image(vec![vec![10, 9], vec![255, 100]]));
    assert_eq!(text(out), "|109|255100|");
}

#[test]
fn images_as_text() {
    let a = image(vec![vec![1, 2]]);
    let b = image(vec![vec![3], vec![4]]);
    let c = image(vec![vec![]]);
    let mut out = Vec::new();
    serialize_images(&mut out, &vec![a, b, c]);
    assert_eq!(text(out), "|12| |3|4| ||");
    let mut out = Vec::new();
    serialize_images(&mut out, &Vec::new());
    assert_eq!(text(out), "");
    let mut out = Vec::new();
    serialize_images(&mut out, &vec![image(vec![vec![7]])]);
    assert_eq!(text(out), "|7|");
}

#[test]
fn tasks_as_text() {
    let first = TaskSolution {
        test: vec![
            TaskTestSolution { output: vec![image(vec![vec![1, 2], vec![3, 4]])] },
            TaskTestSolution { output: vec![] },
            TaskTestSolution { output: vec![image(vec![vec![5]]), image(vec![vec![6]])] },
        ],
    };
    let second = TaskSolution { test: vec![TaskTestSolution { output: vec![] }] };
    let mut third_tests = Vec::new();
    for n in 0..11 {
        let output = if n == 10 { vec![image(vec![vec![8]])] } else { vec![] };
        third_tests.push(TaskTestSolution { output });
    }
    let third = TaskSolution { test: third_tests };
    let tasks = vec![
        ("0a1b".to_string(), first),
        ("none".to_string(), second),
        ("t\u{e9}".to_string(), third),
    ];
    let mut out = Vec::new();
    serialize_all_tasks(&mut out, &tasks);
    assert_eq!(
        text(out),
        "output_id,output\n0a1b_0,|12|34|\n0a1b_2,|5| |6|\nt\u{e9}_10,|8|\n"
    );
}

#[test]
fn no_tasks_as_text() {
    let mut out = Vec::new();
    serialize_all_tasks(&mut out, &Vec::new());
    assert_eq!(text(out), "output_id,output\n");
}

#[test]
fn image_errors_in_words() {
    assert_eq!(ImageError::Empty.message(), "Non-empty image is expected");
    assert_eq!(ImageError::Ragged.message(), "Equally sized image rows are expected");
    assert_eq!(
        ImageError::TooLarge.message(),
        "Image of at most isize::MAX cells is expected"
    );
}
