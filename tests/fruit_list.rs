use fighter_graph::fruits::{remove_fruit, sort_fruits};
use fighter_graph::words::count_fruits;

#[test]
fn test_remove_existing_fruit() {
    let mut fruits = vec!["apple", "banana", "cherry"];
    let result = remove_fruit(&mut fruits, "banana");
    
    assert!(result);
    assert_eq!(fruits, vec!["apple", "cherry"]);
}

#[test]
fn test_remove_first_occurrence_of_duplicate() {
    let mut fruits = vec!["apple", "banana", "banana", "cherry"];
    let result = remove_fruit(&mut fruits, "banana");
    
    assert!(result);
    assert_eq!(fruits, vec!["apple", "banana", "cherry"]);
}

#[test]
fn test_remove_nonexistent_fruit() {
    let mut fruits = vec!["apple", "banana", "cherry"];
    let result = remove_fruit(&mut fruits, "orange");
    
    assert!(!result);
    assert_eq!(fruits, vec!["apple", "banana", "cherry"]);
}

#[test]
fn test_remove_from_empty_vector() {
    let mut fruits: Vec<&str> = vec![];
    let result = remove_fruit(&mut fruits, "apple");
    
    assert!(!result);
    assert_eq!(fruits, vec![] as Vec<&str>);
}

#[test]
fn test_remove_from_single_element_vector() {
    let mut fruits = vec!["apple"];
    let result = remove_fruit(&mut fruits, "apple");
    
    assert!(result);
    assert_eq!(fruits, vec![] as Vec<&str>);
}

#[test]
fn test_remove_first_fruit() {
    let mut fruits = vec!["apple", "banana", "cherry"];
    let result = remove_fruit(&mut fruits, "apple");
    
    assert!(result);
    assert_eq!(fruits, vec!["banana", "cherry"]);
}

#[test]
fn test_remove_last_fruit() {
    let mut fruits = vec!["apple", "banana", "cherry"];
    let result = remove_fruit(&mut fruits, "cherry");
    
    assert!(result);
    assert_eq!(fruits, vec!["apple", "banana"]);
}

#[test]
fn test_sort_fruits_basic() {
    let mut fruits = vec!["cherry", "apple", "banana"];
    sort_fruits(&mut fruits);
    
    assert_eq!(fruits, vec!["apple", "banana", "cherry"]);
}

#[test]
fn test_sort_fruits_already_sorted() {
    let mut fruits = vec!["apple", "banana", "cherry"];
    sort_fruits(&mut fruits);
    
    assert_eq!(fruits, vec!["apple", "banana", "cherry"]);
}

#[test]
fn test_sort_fruits_reverse_order() {
    let mut fruits = vec!["cherry", "banana", "apple"];
    sort_fruits(&mut fruits);
    
    assert_eq!(fruits, vec!["apple", "banana", "cherry"]);
}

#[test]
fn test_sort_fruits_with_duplicates() {
    let mut fruits = vec!["cherry", "apple", "banana", "apple"];
    sort_fruits(&mut fruits);
    
    assert_eq!(fruits, vec!["apple", "apple", "banana", "cherry"]);
}

#[test]
fn test_sort_fruits_single_element() {
    let mut fruits = vec!["apple"];
    sort_fruits(&mut fruits);
    
    assert_eq!(fruits, vec!["apple"]);
}

#[test]
fn test_sort_fruits_empty_vector() {
    let mut fruits: Vec<&str> = vec![];
    sort_fruits(&mut fruits);
    
    assert_eq!(fruits, vec![] as Vec<&str>);
}

#[test]
fn test_sort_fruits_with_special_characters() {
    let mut fruits = vec!["mansikka", "apple", "elderberries"];
    sort_fruits(&mut fruits);
    
    assert_eq!(fruits, vec!["apple", "elderberries", "mansikka"]);
}

#[test]
fn test_count_fruits_basic() {
    let fruits = vec!["apple", "banana", "cherry"];
    let counts = count_fruits(&fruits);
    
    assert_eq!(counts.len(), 3);
    assert_eq!(counts.get("apple"), Some(&1));
    assert_eq!(counts.get("banana"), Some(&1));
    assert_eq!(counts.get("cherry"), Some(&1));
}

#[test]
fn test_count_fruits_with_duplicates() {
    let fruits = vec!["apple", "banana", "apple", "cherry", "banana", "apple"];
    let counts = count_fruits(&fruits);
    
    assert_eq!(counts.len(), 3);
    assert_eq!(counts.get("apple"), Some(&3));
    assert_eq!(counts.get("banana"), Some(&2));
    assert_eq!(counts.get("cherry"), Some(&1));
}

#[test]
fn test_count_fruits_all_same() {
    let fruits = vec!["apple", "apple", "apple", "apple"];
    let counts = count_fruits(&fruits);
    
    assert_eq!(counts.len(), 1);
    assert_eq!(counts.get("apple"), Some(&4));
}

#[test]
fn test_count_fruits_empty_vector() {
    let fruits: Vec<&str> = vec![];
    let counts = count_fruits(&fruits);
    
    assert_eq!(counts.len(), 0);
}

#[test]
fn test_count_fruits_single_element() {
    let fruits = vec!["apple"];
    let counts = count_fruits(&fruits);
    
    assert_eq!(counts.len(), 1);
    assert_eq!(counts.get("apple"), Some(&1));
}

#[test]
fn test_count_fruits_many_duplicates() {
    let fruits = vec!["apple", "apple", "banana", "banana", "banana", "cherry", "cherry", "cherry", "cherry"];
    let counts = count_fruits(&fruits);
    
    assert_eq!(counts.len(), 3);
    assert_eq!(counts.get("apple"), Some(&2));
    assert_eq!(counts.get("banana"), Some(&3));
    assert_eq!(counts.get("cherry"), Some(&4));
}
